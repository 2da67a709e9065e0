//! The control socket: what a client asks for, and what it gets back.
use crate::app_config::distinct_names;
use crate::json::{
    document, json_document, member_of, member_views, object_text, pairs, read_json, stands_for,
    write_object, Json, JsonView, Member, MemberView,
};
use crate::scheme::{below, encoding_of_ascii, runtime_file, Environment};
use crate::text::{append_str, chars, owned, string_of, text_view};
use vstd::prelude::*;
use vstd::utf8::encode_utf8;

verus! {

/// Where the socket is.
pub open spec fn socket_file(env: Environment) -> Seq<u8> {
    below(env.runtime_path(), encode_utf8("cavawall.sock"@))
}

/// Where the socket is: beside the instance lock, one for each session.
pub fn socket_path(env: &Environment) -> (out: Vec<u8>)
    ensures
        out@ == socket_file(*env),
{
    runtime_file(env, "cavawall.sock")
}

/// What a client asks for.
#[derive(Debug)]
pub enum Request {
    /// Everything the instance knows about itself.
    Status,
    /// Start over, pinned to an output, or to none.
    Move { output: Option<String> },
    /// Clear the surface and exit.
    Stop,
    /// Read the configuration and the palette again, without restarting.
    Reload,
}

/// What a client gets back.
#[derive(Debug)]
pub struct Response {
    pub ok: bool,
    pub error: Option<String>,
    /// A JSON document, in answer to a status request.
    pub data: Option<String>,
}

/// A response by value.
pub struct ResponseView {
    pub ok: bool,
    pub error: Option<Seq<char>>,
    pub data: Option<Seq<char>>,
}

impl View for Response {
    type V = ResponseView;

    open spec fn view(&self) -> ResponseView {
        ResponseView { ok: self.ok, error: text_view(self.error), data: text_view(self.data) }
    }
}

impl Response {
    /// The request was carried out.
    pub fn ok(data: Option<String>) -> (r: Response)
        ensures
            r@ == (ResponseView { ok: true, error: None, data: text_view(data) }),
    {
        Response { ok: true, error: None, data }
    }

    /// The request was refused.
    pub fn err(msg: String) -> (r: Response)
        ensures
            r@ == (ResponseView { ok: false, error: Some(msg@), data: None }),
    {
        Response { ok: false, error: Some(msg), data: None }
    }
}

/// What the instance knows about itself.
#[derive(Debug)]
pub struct Status {
    pub pid: u32,
    pub pinned_output: Option<String>,
    pub placed_on: Option<String>,
    pub bars: u32,
    pub curve_key: Option<String>,
}

/// An optional text as a member's value.
pub open spec fn optional(t: Option<Seq<char>>) -> MemberView {
    match t {
        Some(text) => MemberView::Text(text),
        None => MemberView::Null,
    }
}

impl Status {
    /// The members of the document that tells the status.
    pub open spec fn members(self) -> Seq<(Seq<char>, MemberView)> {
        seq![
            ("pid"@, MemberView::Number(self.pid as nat)),
            ("pinned_output"@, optional(text_view(self.pinned_output))),
            ("placed_on"@, optional(text_view(self.placed_on))),
            ("bars"@, MemberView::Number(self.bars as nat)),
            ("curve_key"@, optional(text_view(self.curve_key))),
        ]
    }

    /// The JSON text `doc` tells this status: each member stands for what the
    /// instance knows.
    pub open spec fn told_by(self, doc: Seq<char>) -> bool {
        forall|i: int|
            0 <= i < self.members().len() ==> stands_for(
                member_of(json_document(doc), (#[trigger] self.members()[i]).0),
                self.members()[i].1,
            )
    }

    /// The status as a JSON document.
    pub fn document(&self) -> (r: String)
        ensures
            r@ == object_text(self.members()),
            self.told_by(r@),
    {
        let mut members: Vec<(String, Member)> = Vec::new();
        members.push((owned("pid"), Member::Number(self.pid as u64)));
        members.push((owned("pinned_output"), optional_member(&self.pinned_output)));
        members.push((owned("placed_on"), optional_member(&self.placed_on)));
        members.push((owned("bars"), Member::Number(self.bars as u64)));
        members.push((owned("curve_key"), optional_member(&self.curve_key)));
        let ghost m = members@;
        proof {
            reveal_strlit("pid");
            reveal_strlit("pinned_output");
            reveal_strlit("placed_on");
            reveal_strlit("bars");
            reveal_strlit("curve_key");
            assert(m[0].0@ == "pid"@ && m[0].0@.len() == 3);
            assert(m[1].0@ == "pinned_output"@ && m[1].0@.len() == 13);
            assert(m[2].0@ == "placed_on"@ && m[2].0@.len() == 9 && m[2].0@[0] == 'p');
            assert(m[3].0@ == "bars"@ && m[3].0@.len() == 4);
            assert(m[4].0@ == "curve_key"@ && m[4].0@.len() == 9 && m[4].0@[0] == 'c');
            assert(distinct_names(m));
            assert(member_views(m) =~= self.members());
        }
        let r = write_object(members);
        proof {
            assert forall|i: int| 0 <= i < self.members().len() implies stands_for(
                member_of(json_document(r@), (#[trigger] self.members()[i]).0),
                self.members()[i].1,
            ) by {
                assert(self.members()[i] == (m[i].0@, m[i].1@));
            }
        }
        r
    }
}

fn optional_member(t: &Option<String>) -> (r: Member)
    ensures
        r@ == optional(text_view(*t)),
{
    match t {
        Some(text) => Member::Text(owned(text.as_str())),
        None => Member::Null,
    }
}

/// What to do once a request has been answered.
#[derive(Clone, Copy, Debug, PartialEq, Eq, Structural)]
pub enum After {
    /// Carry on.
    Carry,
    /// Start over.
    Restart,
    /// Clear the surface and exit.
    Stop,
}

/// How a request is served, in this order.
#[derive(Debug)]
pub struct Served {
    /// The pin to leave in the environment: set to an output, or removed.
    pub pin: Option<Option<String>>,
    /// Read the configuration again.
    pub reload_config: bool,
    /// Read the palette again.
    pub reload_colors: bool,
    /// Answer with this.
    pub response: Response,
    /// Then do this. Starting over and stopping never come back to answer.
    pub after: After,
}

/// A pin by value.
pub open spec fn pin_view(pin: Option<Option<String>>) -> Option<Option<Seq<char>>> {
    match pin {
        Some(p) => Some(text_view(p)),
        None => None,
    }
}

/// A response that carries nothing but success.
pub open spec fn plain_ok() -> ResponseView {
    ResponseView { ok: true, error: None, data: None }
}

/// How `request` is served while the instance is in `status`. A request that
/// could not be understood is refused, and nothing else is done.
pub open spec fn serves(request: Option<Request>, status: Status, s: Served) -> bool {
    match request {
        None => {
            &&& pin_view(s.pin) is None && !s.reload_config && !s.reload_colors
            &&& s.after == After::Carry
            &&& s.response@ == (ResponseView {
                ok: false,
                error: Some("unparseable request"@),
                data: None,
            })
        },
        Some(Request::Status) => {
            &&& pin_view(s.pin) is None && !s.reload_config && !s.reload_colors
            &&& s.after == After::Carry
            &&& s.response@ == (ResponseView {
                ok: true,
                error: None,
                data: Some(object_text(status.members())),
            })
            &&& status.told_by(s.response@.data->0)
        },
        Some(Request::Move { output }) => {
            &&& pin_view(s.pin) == Some(text_view(output)) && !s.reload_config && !s.reload_colors
            &&& s.after == After::Restart
            &&& s.response@ == plain_ok()
        },
        Some(Request::Stop) => {
            &&& pin_view(s.pin) is None && !s.reload_config && !s.reload_colors
            &&& s.after == After::Stop
            &&& s.response@ == plain_ok()
        },
        Some(Request::Reload) => {
            &&& pin_view(s.pin) is None && s.reload_config && s.reload_colors
            &&& s.after == After::Carry
            &&& s.response@ == plain_ok()
        },
    }
}

/// How a request is served.
pub fn serve_control(request: Option<Request>, status: &Status) -> (s: Served)
    ensures
        serves(request, *status, s),
{
    match request {
        None => Served {
            pin: None,
            reload_config: false,
            reload_colors: false,
            response: Response::err(owned("unparseable request")),
            after: After::Carry,
        },
        Some(Request::Status) => Served {
            pin: None,
            reload_config: false,
            reload_colors: false,
            response: Response::ok(Some(status.document())),
            after: After::Carry,
        },
        Some(Request::Move { output }) => Served {
            pin: Some(output),
            reload_config: false,
            reload_colors: false,
            response: Response::ok(None),
            after: After::Restart,
        },
        Some(Request::Stop) => Served {
            pin: None,
            reload_config: false,
            reload_colors: false,
            response: Response::ok(None),
            after: After::Stop,
        },
        Some(Request::Reload) => Served {
            pin: None,
            reload_config: true,
            reload_colors: true,
            response: Response::ok(None),
            after: After::Carry,
        },
    }
}

/// Every request is answered, and only one that was not understood is
/// refused.
pub proof fn only_the_unparseable_is_refused(
    request: Option<Request>,
    status: Status,
    s: Served,
)
    requires
        serves(request, status, s),
    ensures
        s.response@.ok == (request is Some),
        s.response@.error is Some == (request is None),
        s.after != After::Carry ==> s.response@ == plain_ok(),
{
}

/// What a client prints.
#[derive(Debug)]
pub enum Printed {
    /// The response as it came.
    Whole,
    /// An error, to the error stream.
    Error(String),
    /// Lines of data.
    Lines(Vec<String>),
}

/// A name padded to the width of the table, a space, and the value.
pub open spec fn line_of(name: Seq<char>, value: Seq<char>) -> Seq<char> {
    let gap = if name.len() < 15 {
        (15 - name.len()) as nat
    } else {
        0
    };
    name + Seq::new(gap, |i: int| ' ') + " "@ + value
}

/// A member's value as it is printed: a text as itself, anything else as JSON.
pub open spec fn printed_value(value: Seq<char>) -> Seq<char> {
    match json_document(value) {
        Some(JsonView::Text(text)) => text,
        _ => value,
    }
}

/// The lines that a document is printed in: one for each member, and none
/// where it is no object.
pub open spec fn lines_of(doc: Option<JsonView>) -> Seq<Seq<char>> {
    match doc {
        Some(JsonView::Object(members)) => members.map_values(
            |m: (Seq<char>, Seq<char>)| line_of(m.0, printed_value(m.1)),
        ),
        _ => Seq::empty(),
    }
}

/// Texts by value.
pub open spec fn texts(lines: Seq<String>) -> Seq<Seq<char>> {
    lines.map_values(|s: String| s@)
}

/// What is printed of a response.
pub open spec fn prints(json: bool, response: Response, p: Printed) -> bool {
    if json {
        p is Whole
    } else if response.error is Some {
        p matches Printed::Error(e) && e@ == "cavawallctl: "@ + response.error->0@
    } else {
        p matches Printed::Lines(lines) && texts(lines@) == if response.data is Some {
            lines_of(json_document(response.data->0@))
        } else {
            Seq::empty()
        }
    }
}

/// What a client exits with.
pub open spec fn exit_code(response: Response) -> u8 {
    if response.ok {
        0
    } else {
        1
    }
}

/// One line of the table.
pub fn table_line(name: &str, value: &str) -> (out: String)
    ensures
        out@ == line_of(name@, value@),
{
    let mut out = chars(name);
    let n: usize = out.len();
    while out.len() < 15
        invariant
            n == name@.len(),
            n <= out@.len(),
            n < out@.len() ==> out@.len() <= 15,
            out@ == name@ + Seq::new((out@.len() - n) as nat, |i: int| ' '),
        decreases 15 - out@.len(),
    {
        out.push(' ');
        assert(out@ =~= name@ + Seq::new((out@.len() - n) as nat, |i: int| ' '));
    }
    append_str(&mut out, " ");
    append_str(&mut out, value);
    string_of(out.as_slice())
}

fn lines_of_members(members: &[(String, String)]) -> (lines: Vec<String>)
    ensures
        texts(lines@) == lines_of(Some(JsonView::Object(pairs(members@)))),
{
    let mut lines: Vec<String> = Vec::new();
    let ghost want = lines_of(Some(JsonView::Object(pairs(members@))));
    for i in 0..members.len()
        invariant
            want == lines_of(Some(JsonView::Object(pairs(members@)))),
            want.len() == members@.len(),
            lines@.len() == i,
            forall|j: int| 0 <= j < i ==> (#[trigger] lines@[j])@ == want[j],
    {
        let value = members[i].1.as_str();
        let line = match read_json(value) {
            Some(Json::Text(text)) => table_line(members[i].0.as_str(), text.as_str()),
            _ => table_line(members[i].0.as_str(), value),
        };
        lines.push(line);
    }
    assert(texts(lines@) =~= want);
    lines
}

/// What a client prints of a response, and what it exits with.
pub fn report(json: bool, response: &Response) -> (r: (Printed, u8))
    ensures
        prints(json, *response, r.0),
        r.1 == exit_code(*response),
{
    let code: u8 = if response.ok {
        0
    } else {
        1
    };
    if json {
        return (Printed::Whole, code);
    }
    if let Some(error) = &response.error {
        let mut cs = chars("cavawallctl: ");
        append_str(&mut cs, error.as_str());
        return (Printed::Error(string_of(cs.as_slice())), code);
    }
    let mut lines: Vec<String> = Vec::new();
    assert(texts(lines@) =~= Seq::empty());
    if let Some(data) = &response.data {
        if let Some(Json::Object(members)) = read_json(data.as_str()) {
            lines = lines_of_members(members.as_slice());
        }
    }
    (Printed::Lines(lines), code)
}

proof fn first_member(members: Seq<(Seq<char>, Seq<char>)>, name: Seq<char>, i: int) -> (k: int)
    requires
        0 <= i < members.len(),
        members[i].0 == name,
    ensures
        0 <= k <= i,
        members[k].0 == name,
        forall|j: int| 0 <= j < k ==> (#[trigger] members[j]).0 != name,
    decreases i,
{
    if exists|j: int| 0 <= j < i && (#[trigger] members[j]).0 == name {
        let j = choose|j: int| 0 <= j < i && (#[trigger] members[j]).0 == name;
        first_member(members, name, j)
    } else {
        i
    }
}

proof fn member_is_listed(
    members: Seq<(Seq<char>, Seq<char>)>,
    name: Seq<char>,
) -> (k: int)
    requires
        member_of(Some(JsonView::Object(members)), name) is Some,
    ensures
        0 <= k < members.len(),
        members[k] == (name, member_of(Some(JsonView::Object(members)), name)->0),
{
    reveal(member_of);
    let any = choose|k: int| 0 <= k < members.len() && (#[trigger] members[k]).0 == name;
    let first = first_member(members, name, any);
    assert(members[first].0 == name);
    choose|k: int|
        0 <= k < members.len() && (#[trigger] members[k]).0 == name && forall|j: int|
            0 <= j < k ==> (#[trigger] members[j]).0 != name
}

proof fn only_objects_have_members(doc: Option<JsonView>, name: Seq<char>)
    requires
        member_of(doc, name) is Some,
    ensures
        doc matches Some(JsonView::Object(_)),
{
    reveal(member_of);
}

/// What the instance tells is what a client prints: each member has a line of
/// its own, and a text stands there as itself.
pub proof fn a_client_prints_what_is_told(status: Status, doc: Seq<char>, i: int)
    requires
        status.told_by(doc),
        0 <= i < status.members().len(),
    ensures
        ({
            let lines = lines_of(json_document(doc));
            let (name, member) = status.members()[i];
            &&& exists|value: Seq<char>| #[trigger]
                stands_for(Some(value), member) && lines.contains(
                    line_of(name, printed_value(value)),
                )
            &&& member matches MemberView::Text(text) ==> lines.contains(line_of(name, text))
        }),
{
    let (name, member) = status.members()[i];
    let read = json_document(doc);
    assert(stands_for(member_of(read, name), member));
    only_objects_have_members(read, name);
    let members = read->Some_0->Object_0;
    let k = member_is_listed(members, name);
    let value = members[k].1;
    assert(lines_of(read)[k] == line_of(name, printed_value(value)));
    assert(stands_for(Some(value), member));
}

/// What a client prints where nothing is listening.
pub open spec fn not_running_text(json: bool, why: Seq<char>) -> Seq<char> {
    if json {
        "{\"ok\":false,\"error\":\"not running\"}"@
    } else {
        "cavawallctl: not running ("@ + why + ")"@
    }
}

/// What a client prints where nothing is listening.
pub fn not_running(json: bool, why: &str) -> (out: String)
    ensures
        out@ == not_running_text(json, why@),
{
    if json {
        return owned("{\"ok\":false,\"error\":\"not running\"}");
    }
    let mut cs = chars("cavawallctl: not running (");
    append_str(&mut cs, why);
    append_str(&mut cs, ")");
    string_of(cs.as_slice())
}

/// The socket is `cavawall.sock` in the directory where the lock is.
pub proof fn the_socket_is_beside_the_lock(env: Environment)
    ensures
        socket_file(env) == below(
            env.runtime_path(),
            seq![
                0x63u8, 0x61u8, 0x76u8, 0x61u8, 0x77u8, 0x61u8, 0x6cu8, 0x6cu8, 0x2eu8, 0x73u8,
                0x6fu8, 0x63u8, 0x6bu8,
            ],
        ),
{
    reveal_strlit("cavawall.sock");
    encoding_of_ascii("cavawall.sock"@);
    assert(encode_utf8("cavawall.sock"@) =~= seq![
        0x63u8, 0x61u8, 0x76u8, 0x61u8, 0x77u8, 0x61u8, 0x6cu8, 0x6cu8, 0x2eu8, 0x73u8,
        0x6fu8, 0x63u8, 0x6bu8,
    ]);
}

/// Each order does what it says and nothing else: a move leaves its output in
/// the environment and starts over, a stop stops, a reload reads configuration
/// and palette again, and a status changes nothing.
pub proof fn each_order_does_its_own(request: Request, status: Status, s: Served)
    requires
        serves(Some(request), status, s),
    ensures
        s.after == After::Restart <==> request is Move,
        s.after == After::Stop <==> request is Stop,
        s.reload_config <==> request is Reload,
        s.reload_colors <==> request is Reload,
        s.pin is Some <==> request is Move,
        request matches Request::Move { output } ==> text_view(s.pin->0) == text_view(output),
        s.response@.ok && s.response@.error is None,
        s.response@.data is Some <==> request is Status,
{
}

/// What was not understood changes nothing and is answered with an error.
pub proof fn the_unparseable_changes_nothing(status: Status, s: Served)
    requires
        serves(None, status, s),
    ensures
        s.after == After::Carry && !s.reload_config && !s.reload_colors && s.pin is None,
        !s.response@.ok && s.response@.error is Some && s.response@.error->0.len() > 0,
        s.response@.data is None,
{
    reveal_strlit("unparseable request");
}

/// The status tells the process, the pin, the output, the bars and the key,
/// each under its own name; what is not known is null.
pub proof fn a_status_names_what_it_tells(status: Status)
    ensures
        status.members().len() == 5,
        status.members().contains((seq!['p', 'i', 'd'], MemberView::Number(status.pid as nat))),
        status.members().contains(
            (seq!['b', 'a', 'r', 's'], MemberView::Number(status.bars as nat)),
        ),
        status.members().contains(
            (
                seq!['p', 'l', 'a', 'c', 'e', 'd', '_', 'o', 'n'],
                match status.placed_on {
                    Some(name) => MemberView::Text(name@),
                    None => MemberView::Null,
                },
            ),
        ),
        status.members().contains(
            (
                seq!['p', 'i', 'n', 'n', 'e', 'd', '_', 'o', 'u', 't', 'p', 'u', 't'],
                match status.pinned_output {
                    Some(name) => MemberView::Text(name@),
                    None => MemberView::Null,
                },
            ),
        ),
        status.members().contains(
            (
                seq!['c', 'u', 'r', 'v', 'e', '_', 'k', 'e', 'y'],
                match status.curve_key {
                    Some(key) => MemberView::Text(key@),
                    None => MemberView::Null,
                },
            ),
        ),
{
    let m = status.members();
    reveal_strlit("pid");
    reveal_strlit("pinned_output");
    reveal_strlit("placed_on");
    reveal_strlit("bars");
    reveal_strlit("curve_key");
    assert("pid"@ =~= seq!['p', 'i', 'd']);
    assert("bars"@ =~= seq!['b', 'a', 'r', 's']);
    assert("placed_on"@ =~= seq!['p', 'l', 'a', 'c', 'e', 'd', '_', 'o', 'n']);
    assert("pinned_output"@ =~= seq![
        'p', 'i', 'n', 'n', 'e', 'd', '_', 'o', 'u', 't', 'p', 'u', 't',
    ]);
    assert("curve_key"@ =~= seq!['c', 'u', 'r', 'v', 'e', '_', 'k', 'e', 'y']);
    assert(m[0] == ("pid"@, MemberView::Number(status.pid as nat)));
    assert(m[1].0 == "pinned_output"@ && m[2].0 == "placed_on"@);
    assert(m[3] == ("bars"@, MemberView::Number(status.bars as nat)));
    assert(m[4].0 == "curve_key"@);
}

/// A line starts with its name and ends with its value; between them are
/// blanks, one at least, so that values stand in the seventeenth column
/// wherever the name leaves room.
pub proof fn values_stand_in_a_column(name: Seq<char>, value: Seq<char>)
    ensures
        ({
            let line = line_of(name, value);
            let start = line.len() - value.len();
            &&& line.take(name.len() as int) == name
            &&& line.skip(start) == value
            &&& start == if name.len() <= 15 {
                16
            } else {
                name.len() + 1
            }
            &&& forall|i: int| name.len() <= i < start ==> #[trigger] line[i] == ' '
        }),
{
    reveal_strlit(" ");
    let line = line_of(name, value);
    let start = line.len() - value.len();
    assert(line.take(name.len() as int) =~= name);
    assert(line.skip(start) =~= value);
}

/// A client exits with success exactly where the request was carried out, and
/// prints an error wherever it was told one, unless it prints everything.
pub proof fn a_refusal_is_reported(response: Response, p: Printed)
    requires
        prints(false, response, p),
    ensures
        exit_code(response) == 0 <==> response.ok,
        response.error is Some <==> p is Error,
        response.error is Some && p is Error ==> p->Error_0@.skip(
            p->Error_0@.len() - response.error->0@.len(),
        ) == response.error->0@,
        response.error is None && response.data is None ==> p->Lines_0@.len() == 0,
{
    if response.error is Some {
        let e = p->Error_0@;
        assert(e.skip(e.len() - response.error->0@.len()) =~= response.error->0@);
    } else if response.data is None {
        assert(texts(p->Lines_0@).len() == 0);
    }
}

/// A printed value is a text without its quotes, and anything else as it is.
pub proof fn a_text_is_printed_without_quotes(value: Seq<char>)
    ensures
        json_document(value) matches Some(JsonView::Text(t)) ==> printed_value(value) == t,
        !(json_document(value) matches Some(JsonView::Text(_))) ==> printed_value(value) == value,
{
}

/// The reason stands whole between brackets, and is left out of what a machine
/// reads.
pub proof fn a_reason_is_told_whole(why: Seq<char>, other: Seq<char>)
    ensures
        not_running_text(true, why) == not_running_text(true, other),
        ({
            let t = not_running_text(false, why);
            &&& t.len() == why.len() + 27
            &&& t.subrange(26, 26 + why.len() as int) == why
            &&& t[25] == '(' && t.last() == ')'
        }),
{
    reveal_strlit("cavawallctl: not running (");
    reveal_strlit(")");
    let t = not_running_text(false, why);
    assert(t.subrange(26, 26 + why.len() as int) =~= why);
}

/// A document that is an object is printed in one line for each member, in
/// order, and any other in none.
pub proof fn each_member_has_a_line(members: Seq<(Seq<char>, Seq<char>)>, i: int)
    ensures
        lines_of(Some(JsonView::Object(members))).len() == members.len(),
        0 <= i < members.len() ==> lines_of(Some(JsonView::Object(members)))[i] == line_of(
            members[i].0,
            printed_value(members[i].1),
        ),
        lines_of(Some(JsonView::Other)).len() == 0,
        lines_of(None).len() == 0,
{
}

} // verus!
