//! The gradient: reading its colours, ordering its stops, packing it for upload.
use crate::app_config::{distinct_names, found_at, position_of, ConfigColor};
use crate::scheme::scheme_colours;
use crate::single::{Single, ONE};
use crate::text::{
    before, before_asymmetric, before_irreflexive, before_total, before_transitive, chars, code,
    copied, digit, digits_value, is_before, parse_digits, shown, shown_is_decimal,
};
use vstd::prelude::*;
use vstd::set_lib::{lemma_int_range, lemma_subset_equality, set_int_range};

verus! {

/// A colour: three channels of eight bits, and an opacity.
#[derive(Clone, Copy, Debug, PartialEq, Eq, Structural)]
pub struct Colour {
    pub red: u8,
    pub green: u8,
    pub blue: u8,
    pub alpha: Single,
}

/// The value of a hexadecimal digit, in either case.
pub open spec fn nibble(c: int) -> Option<u8> {
    if 0x30 <= c <= 0x39 {
        Some((c - 0x30) as u8)
    } else if 0x61 <= c <= 0x66 {
        Some((c - 0x61 + 10) as u8)
    } else if 0x41 <= c <= 0x46 {
        Some((c - 0x41 + 10) as u8)
    } else {
        None
    }
}

/// The value of the hexadecimal digit `b`, in either case.
pub fn hex_nibble(b: u8) -> (r: Option<u8>)
    ensures
        r == nibble(b as int),
{
    if 0x30 <= b && b <= 0x39 {
        Some(b - 0x30)
    } else if 0x61 <= b && b <= 0x66 {
        Some(b - 0x61 + 10)
    } else if 0x41 <= b && b <= 0x46 {
        Some(b - 0x41 + 10)
    } else {
        None
    }
}

/// `s` without the `#` it may start with.
pub open spec fn bare(s: Seq<char>) -> Seq<char> {
    if s.len() > 0 && s[0] == '#' {
        s.drop_first()
    } else {
        s
    }
}

/// Six hexadecimal digits, with a `#` before them or without.
pub open spec fn is_colour(s: Seq<char>) -> bool {
    bare(s).len() == 6 && forall|i: int|
        0 <= i < 6 ==> nibble(#[trigger] bare(s)[i] as int) is Some
}

/// The byte that the digits at `at` and `at + 1` write.
pub open spec fn hex_byte(s: Seq<char>, at: int) -> u8 {
    (nibble(s[at] as int)->0 * 16 + nibble(s[at + 1] as int)->0) as u8
}

/// The colour that `s` writes, with opacity `alpha`.
pub open spec fn colour_of(s: Seq<char>, alpha: Single) -> Colour {
    Colour {
        red: hex_byte(bare(s), 0),
        green: hex_byte(bare(s), 2),
        blue: hex_byte(bare(s), 4),
        alpha,
    }
}

fn digit_of(c: char) -> (r: Option<u8>)
    ensures
        r == nibble(c as int),
{
    let u = code(c);
    if u < 128 {
        hex_nibble(u as u8)
    } else {
        None
    }
}

/// Read `#rrggbb`, or bare `rrggbb`.
pub fn try_color_from_hex(hex: &str, a: Single) -> (r: Option<Colour>)
    ensures
        r == if is_colour(hex@) {
            Some(colour_of(hex@, a))
        } else {
            None
        },
{
    let all = chars(hex);
    let start: usize = if all.len() > 0 && all[0] == '#' {
        1
    } else {
        0
    };
    let body = copied(all.as_slice(), start, all.len());
    assert(body@ =~= bare(hex@));
    if body.len() != 6 {
        return None;
    }
    let mut v: Vec<u8> = Vec::new();
    for i in 0..6usize
        invariant
            body@ == bare(hex@),
            body@.len() == 6,
            v@.len() == i,
            forall|j: int| 0 <= j < i ==> nibble(#[trigger] body@[j] as int) == Some(v@[j]),
            forall|j: int| 0 <= j < i ==> #[trigger] v@[j] < 16,
    {
        match digit_of(body[i]) {
            Some(n) => v.push(n),
            None => {
                assert(nibble(bare(hex@)[i as int] as int) is None);
                return None;
            },
        }
    }
    assert(nibble(body@[0] as int) == Some(v@[0]));
    assert(nibble(body@[1] as int) == Some(v@[1]));
    assert(nibble(body@[2] as int) == Some(v@[2]));
    assert(nibble(body@[3] as int) == Some(v@[3]));
    assert(nibble(body@[4] as int) == Some(v@[4]));
    assert(nibble(body@[5] as int) == Some(v@[5]));
    Some(
        Colour {
            red: v[0] * 16 + v[1],
            green: v[2] * 16 + v[3],
            blue: v[4] * 16 + v[5],
            alpha: a,
        },
    )
}

/// Read a colour that is known to be written right.
pub fn color_from_hex(hex: &str, a: Single) -> (r: Colour)
    requires
        is_colour(hex@),
    ensures
        r == colour_of(hex@, a),
{
    match try_color_from_hex(hex, a) {
        Some(c) => c,
        None => Colour { red: 0, green: 0, blue: 0, alpha: a },
    }
}

/// The opacity a stop states, one where it states none.
pub open spec fn alpha_or_opaque(alpha: Option<Single>) -> Single {
    match alpha {
        Some(a) => a,
        None => Single { bits: ONE },
    }
}

/// The text of a stop's own colour.
pub open spec fn own_hex(stop: ConfigColor) -> Seq<char> {
    match stop {
        ConfigColor::Simple(hex) => hex@,
        ConfigColor::Complex(c) => c.hex@,
    }
}

/// The opacity of a stop.
pub open spec fn own_alpha(stop: ConfigColor) -> Single {
    match stop {
        ConfigColor::Simple(_) => Single { bits: ONE },
        ConfigColor::Complex(c) => alpha_or_opaque(c.alpha),
    }
}

/// The colour that a stop states for itself.
pub fn array_from_config_color(color: &ConfigColor) -> (r: Colour)
    requires
        is_colour(own_hex(*color)),
    ensures
        r == colour_of(own_hex(*color), own_alpha(*color)),
{
    match color {
        ConfigColor::Simple(hex) => color_from_hex(hex.as_str(), Single { bits: ONE }),
        ConfigColor::Complex(c) => {
            let a = match c.alpha {
                Some(a) => a,
                None => Single { bits: ONE },
            };
            color_from_hex(c.hex.as_str(), a)
        },
    }
}

/// The scheme holds a readable colour for the role that `stop` names, at `i`.
pub open spec fn live_at(stop: ConfigColor, scheme: Option<Seq<(String, String)>>, i: int) -> bool {
    &&& stop matches ConfigColor::Complex(c)
    &&& c.role matches Some(role)
    &&& scheme matches Some(roles)
    &&& found_at(roles, role@, Some(i))
    &&& is_colour(roles[i].1@)
}

/// The colour for a stop: the scheme's where it has a readable one for the
/// stop's role, else the stop's own. The opacity is the stop's either way.
pub open spec fn resolved(
    stop: ConfigColor,
    scheme: Option<Seq<(String, String)>>,
    out: Colour,
) -> bool {
    if exists|i: int| live_at(stop, scheme, i) {
        exists|i: int|
            #[trigger] live_at(stop, scheme, i) && out == colour_of(
                scheme->0[i].1@,
                own_alpha(stop),
            )
    } else {
        out == colour_of(own_hex(stop), own_alpha(stop))
    }
}

/// The list of roles as a sequence, where there is one.
pub open spec fn roles_of(scheme: Option<&Vec<(String, String)>>) -> Option<Seq<(String, String)>> {
    match scheme {
        Some(roles) => Some(roles@),
        None => None,
    }
}

/// The scheme's colour for this stop, where there is one that can be read.
fn live_colour(stop: &ConfigColor, scheme: Option<&Vec<(String, String)>>) -> (r: Option<Colour>)
    ensures
        r is Some == (exists|i: int| live_at(*stop, roles_of(scheme), i)),
        r matches Some(c) ==> exists|i: int|
            #[trigger] live_at(*stop, roles_of(scheme), i) && c == colour_of(
                roles_of(scheme)->0[i].1@,
                own_alpha(*stop),
            ),
{
    let roles = match scheme {
        Some(roles) => roles,
        None => {
            return None;
        },
    };
    match stop {
        ConfigColor::Simple(_) => None,
        ConfigColor::Complex(c) => {
            let role = match &c.role {
                Some(role) => role,
                None => {
                    return None;
                },
            };
            match position_of(roles.as_slice(), role.as_str()) {
                None => None,
                Some(at) => {
                    let a = match c.alpha {
                        Some(a) => a,
                        None => Single { bits: ONE },
                    };
                    let r = try_color_from_hex(roles[at].1.as_str(), a);
                    proof {
                        if r is Some {
                            assert(live_at(*stop, roles_of(scheme), at as int));
                        }
                        assert forall|i: int| #[trigger]
                            live_at(*stop, roles_of(scheme), i) implies i == at by {
                            if i < at {
                                assert(roles@[i].0@ != role@);
                            } else if at < i {
                                assert(roles@[at as int].0@ != role@);
                            }
                        }
                    }
                    r
                },
            }
        },
    }
}

/// Every stop's colour, in order.
pub fn resolve_stops(stops: &[ConfigColor], scheme: Option<&Vec<(String, String)>>) -> (out: Vec<
    Colour,
>)
    requires
        forall|k: int|
            0 <= k < stops@.len() ==> is_colour(own_hex(#[trigger] stops@[k])) || exists|i: int|
                live_at(stops@[k], roles_of(scheme), i),
    ensures
        out@.len() == stops@.len(),
        forall|k: int|
            0 <= k < stops@.len() ==> resolved(stops@[k], roles_of(scheme), #[trigger] out@[k]),
{
    let mut out: Vec<Colour> = Vec::new();
    for k in 0..stops.len()
        invariant
            forall|k: int|
                0 <= k < stops@.len() ==> is_colour(own_hex(#[trigger] stops@[k])) || exists|i: int|
                    live_at(stops@[k], roles_of(scheme), i),
            out@.len() == k,
            forall|j: int|
                0 <= j < k ==> resolved(stops@[j], roles_of(scheme), #[trigger] out@[j]),
    {
        let stop = &stops[k];
        assert(is_colour(own_hex(stops@[k as int])) || exists|i: int|
            live_at(stops@[k as int], roles_of(scheme), i));
        let c = match live_colour(stop, scheme) {
            Some(c) => c,
            None => array_from_config_color(stop),
        };
        out.push(c);
    }
    out
}

/// Without a scheme every stop shows its own colour.
pub proof fn no_scheme_keeps_the_file(stop: ConfigColor, out: Colour)
    requires
        resolved(stop, None, out),
    ensures
        out == colour_of(own_hex(stop), own_alpha(stop)),
{
}

/// A stop keeps its own opacity whatever the scheme says.
pub proof fn opacity_is_the_stops_own(
    stop: ConfigColor,
    scheme: Option<Seq<(String, String)>>,
    out: Colour,
)
    requires
        resolved(stop, scheme, out),
    ensures
        out.alpha == own_alpha(stop),
{
}

/// A stop has a colour to show.
pub open spec fn readable(stop: ConfigColor, scheme: Option<Seq<(String, String)>>) -> bool {
    is_colour(own_hex(stop)) || exists|i: int| live_at(stop, scheme, i)
}

/// The first stop with no colour to show, neither its own nor the scheme's.
pub fn first_unreadable(stops: &[ConfigColor], scheme: Option<&Vec<(String, String)>>) -> (at:
    Option<usize>)
    ensures
        match at {
            Some(k) => k < stops@.len() && !readable(stops@[k as int], roles_of(scheme))
                && forall|j: int|
                0 <= j < k ==> readable(#[trigger] stops@[j], roles_of(scheme)),
            None => forall|j: int|
                0 <= j < stops@.len() ==> readable(#[trigger] stops@[j], roles_of(scheme)),
        },
{
    for k in 0..stops.len()
        invariant
            forall|j: int| 0 <= j < k ==> readable(#[trigger] stops@[j], roles_of(scheme)),
    {
        let own = match &stops[k] {
            ConfigColor::Simple(hex) => try_color_from_hex(hex.as_str(), Single { bits: ONE }),
            ConfigColor::Complex(c) => try_color_from_hex(
                c.hex.as_str(),
                Single { bits: ONE },
            ),
        };
        if own.is_none() && live_colour(&stops[k], scheme).is_none() {
            return Some(k);
        }
    }
    None
}

/// The colours to show once the scheme file `raw` has changed, or what to do
/// instead.
#[derive(Debug)]
pub enum Reload {
    /// The scheme cannot be read: what is shown stays.
    Keep,
    /// Show these.
    Show(Vec<Colour>),
    /// This stop, the first such, has no colour to show.
    Unreadable(usize),
}

/// `r` is what becomes of the palette once the scheme file `raw` has changed.
pub open spec fn reloaded(stops: Seq<ConfigColor>, raw: Option<&str>, r: Reload) -> bool {
    match r {
        Reload::Keep => raw is None || scheme_colours(raw->0@) is None,
        Reload::Show(out) => {
            &&& raw is Some
            &&& out@.len() == stops.len()
            &&& exists|roles: Seq<(String, String)>| #[trigger]
                scheme_is(raw->0@, roles) && forall|k: int|
                    0 <= k < stops.len() ==> resolved(stops[k], Some(roles), #[trigger] out@[k])
        },
        Reload::Unreadable(k) => {
            &&& raw is Some
            &&& k < stops.len()
            &&& exists|roles: Seq<(String, String)>| #[trigger]
                scheme_is(raw->0@, roles) && !readable(stops[k as int], Some(roles))
                    && forall|j: int| 0 <= j < k ==> readable(#[trigger] stops[j], Some(roles))
        },
    }
}

/// `r` is what becomes of the palette once its stops have been read anew.
pub open spec fn reread(stops: Seq<ConfigColor>, raw: Option<&str>, r: Reload) -> bool {
    match r {
        Reload::Keep => stops.len() == 0,
        Reload::Show(out) => {
            &&& stops.len() > 0
            &&& out@.len() == stops.len()
            &&& exists|scheme: Option<Seq<(String, String)>>| #[trigger]
                scheme_or_none(raw, scheme) && forall|k: int|
                    0 <= k < stops.len() ==> resolved(stops[k], scheme, #[trigger] out@[k])
        },
        Reload::Unreadable(k) => {
            &&& k < stops.len()
            &&& exists|scheme: Option<Seq<(String, String)>>| #[trigger]
                scheme_or_none(raw, scheme) && !readable(stops[k as int], scheme) && forall|j: int|
                    0 <= j < k ==> readable(#[trigger] stops[j], scheme)
        },
    }
}

/// Resolves the palette against the scheme file `raw`, where it could be read.
///
/// The count of stops never changes: a role that the scheme lacks falls back
/// to the stop's own colour.
pub fn reload_colors(stops: &[ConfigColor], raw: Option<&str>) -> (r: Reload)
    ensures
        reloaded(stops@, raw, r),
{
    let text = match raw {
        Some(text) => text,
        None => {
            return Reload::Keep;
        },
    };
    let roles = match crate::scheme::colours(text) {
        Some(roles) => roles,
        None => {
            return Reload::Keep;
        },
    };
    assert(scheme_is(text@, roles@));
    assert(roles_of(Some(&roles)) == Some(roles@));
    match first_unreadable(stops, Some(&roles)) {
        Some(k) => Reload::Unreadable(k),
        None => {
            assert forall|k: int| 0 <= k < stops@.len() implies is_colour(
                own_hex(#[trigger] stops@[k]),
            ) || exists|i: int| live_at(stops@[k], roles_of(Some(&roles)), i) by {
                assert(readable(stops@[k], roles_of(Some(&roles))));
            }
            Reload::Show(resolve_stops(stops, Some(&roles)))
        },
    }
}

/// Resolves stops that were read anew against the scheme file `raw`, where it
/// can be read, and against none where it cannot.
///
/// Without a stop there is nothing to show, and what is shown stays.
pub fn reread_colors(stops: &[ConfigColor], raw: Option<&str>) -> (r: Reload)
    ensures
        reread(stops@, raw, r),
{
    if stops.len() == 0 {
        return Reload::Keep;
    }
    let roles = match raw {
        Some(text) => crate::scheme::colours(text),
        None => None,
    };
    let scheme = roles.as_ref();
    assert(scheme_or_none(raw, roles_of(scheme)));
    match first_unreadable(stops, scheme) {
        Some(k) => Reload::Unreadable(k),
        None => {
            assert forall|k: int| 0 <= k < stops@.len() implies is_colour(
                own_hex(#[trigger] stops@[k]),
            ) || exists|i: int| live_at(stops@[k], roles_of(scheme), i) by {
                assert(readable(stops@[k], roles_of(scheme)));
            }
            Reload::Show(resolve_stops(stops, scheme))
        },
    }
}

/// `scheme` is what the scheme file `raw` gives, or `None` where it cannot be
/// read.
pub open spec fn scheme_or_none(raw: Option<&str>, scheme: Option<Seq<(String, String)>>) -> bool {
    match scheme {
        Some(roles) => raw is Some && scheme_is(raw->0@, roles),
        None => raw is None || scheme_colours(raw->0@) is None,
    }
}

/// `roles` are those that the scheme file `raw` gives colours for.
pub open spec fn scheme_is(raw: Seq<char>, roles: Seq<(String, String)>) -> bool {
    scheme_colours(raw) == Some(crate::json::pairs(roles)) && distinct_names(roles)
}

/// How many digits `s` ends in.
pub open spec fn digits_at_end(s: Seq<char>) -> nat
    decreases s.len(),
{
    if s.len() > 0 && digit(s.last()) {
        1 + digits_at_end(s.drop_last())
    } else {
        0
    }
}

/// The number that `name` ends in, where it ends in digits and their number
/// has at most 64 bits.
pub open spec fn number_of(name: Seq<char>) -> Option<nat> {
    digits_value(name.skip(name.len() - digits_at_end(name)), u64::MAX as nat)
}

/// Stop `a` comes before stop `b` in the gradient: by number, then by name,
/// and the names without a number last.
pub open spec fn stop_before(a: Seq<char>, b: Seq<char>) -> bool {
    match (number_of(a), number_of(b)) {
        (Some(x), Some(y)) => x < y || (x == y && before(a, b)),
        (Some(_), None) => true,
        (None, Some(_)) => false,
        (None, None) => before(a, b),
    }
}

/// The number that `name` ends in.
fn trailing_number(name: &str) -> (r: Option<u64>)
    ensures
        r is Some == number_of(name@) is Some,
        r matches Some(n) ==> number_of(name@) == Some(n as nat),
{
    let cs = chars(name);
    let end: usize = cs.len();
    let mut start: usize = end;
    assert(cs@.take(start as int) == cs@);
    while start > 0 && '0' <= cs[start - 1] && cs[start - 1] <= '9'
        invariant
            cs@ == name@,
            start <= end == cs@.len(),
            digits_at_end(name@) == (end - start) + digits_at_end(cs@.take(start as int)),
        decreases start,
    {
        assert(cs@.take(start as int).drop_last() == cs@.take(start - 1));
        start -= 1;
    }
    let run = copied(cs.as_slice(), start, end);
    assert(run@ =~= name@.skip(name@.len() - digits_at_end(name@)));
    parse_digits(run.as_slice(), u64::MAX)
}

/// Whether the stop named `a` comes before the one named `b`.
fn comes_before(a: &str, b: &str) -> (r: bool)
    ensures
        r == stop_before(a@, b@),
{
    match (trailing_number(a), trailing_number(b)) {
        (Some(x), Some(y)) => x < y || (x == y && is_before(a, b)),
        (Some(_), None) => true,
        (None, Some(_)) => false,
        (None, None) => is_before(a, b),
    }
}

proof fn stop_order(a: Seq<char>, b: Seq<char>, c: Seq<char>)
    ensures
        !stop_before(a, a),
        stop_before(a, b) && stop_before(b, c) ==> stop_before(a, c),
        stop_before(a, b) ==> !stop_before(b, a),
        a == b || stop_before(a, b) || stop_before(b, a),
{
    before_irreflexive(a);
    before_total(a, b);
    if before(a, b) {
        before_asymmetric(a, b);
        if before(b, c) {
            before_transitive(a, b, c);
        }
    }
}

/// `order` lists the stops of `colors` as the gradient runs: each index once,
/// and no stop after one that it comes before.
pub open spec fn gradient_order(colors: Seq<(String, ConfigColor)>, order: Seq<int>) -> bool {
    &&& order.len() == colors.len()
    &&& forall|p: int| 0 <= p < order.len() ==> 0 <= #[trigger] order[p] < colors.len()
    &&& forall|p: int, q: int|
        0 <= p < q < order.len() ==> #[trigger] order[p] != #[trigger] order[q]
    &&& forall|p: int, q: int|
        0 <= p < q < order.len() ==> !stop_before(
            colors[#[trigger] order[q]].0@,
            colors[#[trigger] order[p]].0@,
        )
}

/// `out` is the stops of `colors`, as the gradient runs.
pub open spec fn arranged(colors: Seq<(String, ConfigColor)>, out: Seq<ConfigColor>) -> bool {
    exists|order: Seq<int>| #[trigger]
        gradient_order(colors, order) && out == Seq::new(
            order.len(),
            |p: int| colors[order[p]].1,
        )
}

/// The stops in gradient order.
pub fn ordered_stops(colors: &[(String, ConfigColor)]) -> (out: Vec<ConfigColor>)
    ensures
        arranged(colors@, out@),
{
    let n: usize = colors.len();
    let mut order: Vec<usize> = Vec::new();
    for i in 0..n
        invariant
            n == colors@.len(),
            order@.len() == i,
            forall|p: int| 0 <= p < i ==> (#[trigger] order@[p]) < i,
            forall|p: int, q: int|
                0 <= p < q < i ==> (#[trigger] order@[p]) != (#[trigger] order@[q]),
            forall|p: int, q: int|
                0 <= p < q < i ==> !stop_before(
                    colors@[(#[trigger] order@[q]) as int].0@,
                    colors@[(#[trigger] order@[p]) as int].0@,
                ),
    {
        let ghost name = colors@[i as int].0@;
        let mut at: usize = i;
        while at > 0 && comes_before(colors[i].0.as_str(), colors[order[at - 1]].0.as_str())
            invariant
                i < n == colors@.len(),
                at <= i == order@.len(),
                name == colors@[i as int].0@,
                forall|p: int| 0 <= p < i ==> (#[trigger] order@[p]) < i,
                forall|p: int|
                    at <= p < i ==> stop_before(
                        name,
                        colors@[(#[trigger] order@[p]) as int].0@,
                    ),
            decreases at,
        {
            at -= 1;
        }
        let ghost prev = order@;
        proof {
            assert forall|p: int| 0 <= p < at implies !stop_before(
                name,
                colors@[(#[trigger] prev[p]) as int].0@,
            ) by {
                let x = colors@[prev[p] as int].0@;
                let y = colors@[prev[at - 1] as int].0@;
                if p < at - 1 {
                    assert(!stop_before(y, x));
                    stop_order(name, x, y);
                    stop_order(y, x, x);
                    stop_order(x, y, y);
                }
            }
            assert forall|p: int| at <= p < i implies !stop_before(
                colors@[(#[trigger] prev[p]) as int].0@,
                name,
            ) by {
                stop_order(name, colors@[prev[p] as int].0@, name);
            }
        }
        order.insert(at, i);
        assert(order@ == prev.insert(at as int, i));
    }
    let mut out: Vec<ConfigColor> = Vec::new();
    let ghost ranks = order@.map_values(|x: usize| x as int);
    for p in 0..n
        invariant
            n == colors@.len() == order@.len(),
            ranks == order@.map_values(|x: usize| x as int),
            forall|p: int| 0 <= p < n ==> (#[trigger] order@[p]) < n,
            out@ == Seq::new(p as nat, |q: int| colors@[ranks[q]].1),
    {
        out.push(colors[order[p]].1.clone());
    }
    proof {
        assert(gradient_order(colors@, ranks));
        assert(out@ =~= Seq::new(ranks.len(), |q: int| colors@[ranks[q]].1));
    }
    out
}

/// The pairs of a section, whatever order they are listed in.
pub open spec fn entries(colors: Seq<(String, ConfigColor)>) -> Set<(Seq<char>, ConfigColor)> {
    Set::new(
        |e: (Seq<char>, ConfigColor)|
            exists|i: int|
                0 <= i < colors.len() && (#[trigger] colors[i]).0@ == e.0 && colors[i].1 == e.1,
    )
}

/// An order that lists indices below its length, each once, lists them all.
pub(crate) proof fn order_is_onto(order: Seq<int>, i: int)
    requires
        forall|p: int| 0 <= p < order.len() ==> 0 <= #[trigger] order[p] < order.len(),
        forall|p: int, q: int|
            0 <= p < q < order.len() ==> #[trigger] order[p] != #[trigger] order[q],
        0 <= i < order.len(),
    ensures
        order.contains(i),
{
    let n = order.len() as int;
    assert(order.no_duplicates());
    order.unique_seq_to_set();
    lemma_int_range(0, n);
    assert(order.to_set().subset_of(set_int_range(0, n)));
    lemma_subset_equality(order.to_set(), set_int_range(0, n));
    assert(order.to_set().contains(i));
}

/// Two lists that both run strictly forward and hold the same names are the
/// same list.
proof fn forward_lists_agree(x: Seq<Seq<char>>, y: Seq<Seq<char>>)
    requires
        forall|p: int, q: int|
            0 <= p < q < x.len() ==> stop_before(#[trigger] x[p], #[trigger] x[q]),
        forall|p: int, q: int|
            0 <= p < q < y.len() ==> stop_before(#[trigger] y[p], #[trigger] y[q]),
        forall|p: int| 0 <= p < x.len() ==> y.contains(#[trigger] x[p]),
        forall|p: int| 0 <= p < y.len() ==> x.contains(#[trigger] y[p]),
    ensures
        x == y,
    decreases x.len(),
{
    if x.len() == 0 {
        if y.len() > 0 {
            assert(x.contains(y[0]));
        }
        assert(x =~= y);
    } else {
        let lx = x.len() - 1;
        assert(y.contains(x[lx]));
        let ly = y.len() - 1;
        let m = choose|m: int| 0 <= m < y.len() && y[m] == x[lx];
        assert(x.contains(y[ly]));
        let k = choose|k: int| 0 <= k < x.len() && x[k] == y[ly];
        if k < lx && m < ly {
            stop_order(x[k], x[lx], x[k]);
        } else if k < lx {
            stop_order(x[k], x[lx], x[lx]);
        } else if m < ly {
            stop_order(y[m], y[ly], y[ly]);
        }
        assert(x[lx] == y[ly]);
        let (a, b) = (x.drop_last(), y.drop_last());
        assert forall|p: int| 0 <= p < a.len() implies b.contains(#[trigger] a[p]) by {
            assert(y.contains(x[p]));
            let j = choose|j: int| 0 <= j < y.len() && y[j] == x[p];
            stop_order(x[p], x[lx], x[p]);
            assert(j != ly);
            assert(b[j] == a[p]);
        }
        assert forall|p: int| 0 <= p < b.len() implies a.contains(#[trigger] b[p]) by {
            assert(x.contains(y[p]));
            let j = choose|j: int| 0 <= j < x.len() && x[j] == y[p];
            stop_order(y[p], y[ly], y[p]);
            assert(j != lx);
            assert(a[j] == b[p]);
        }
        forward_lists_agree(a, b);
        assert(x =~= a.push(x[lx]));
        assert(y =~= b.push(y[ly]));
    }
}

proof fn order_runs_forward(colors: Seq<(String, ConfigColor)>, order: Seq<int>, p: int, q: int)
    requires
        distinct_names(colors),
        gradient_order(colors, order),
        0 <= p < q < order.len(),
    ensures
        stop_before(colors[order[p]].0@, colors[order[q]].0@),
{
    let (i, j) = (order[p], order[q]);
    if i < j {
        assert(colors[i].0@ != colors[j].0@);
    } else {
        assert(colors[j].0@ != colors[i].0@);
    }
    stop_order(colors[i].0@, colors[j].0@, colors[i].0@);
}

proof fn listed_names_agree(
    a: Seq<(String, ConfigColor)>,
    b: Seq<(String, ConfigColor)>,
    order_a: Seq<int>,
    order_b: Seq<int>,
    p: int,
)
    requires
        entries(a) == entries(b),
        gradient_order(a, order_a),
        gradient_order(b, order_b),
        0 <= p < order_a.len(),
    ensures
        exists|q: int|
            0 <= q < order_b.len() && b[#[trigger] order_b[q]].0@ == a[order_a[p]].0@,
{
    let e = (a[order_a[p]].0@, a[order_a[p]].1);
    assert(entries(a).contains(e));
    assert(entries(b).contains(e));
    let j = choose|j: int| 0 <= j < b.len() && (#[trigger] b[j]).0@ == e.0 && b[j].1 == e.1;
    order_is_onto(order_b, j);
    let q = choose|q: int| 0 <= q < order_b.len() && order_b[q] == j;
    assert(b[order_b[q]].0@ == e.0);
}

/// The gradient depends on what the section holds and not on the order in
/// which its entries happen to be listed.
pub proof fn order_is_independent_of_listing(
    a: Seq<(String, ConfigColor)>,
    b: Seq<(String, ConfigColor)>,
    out_a: Seq<ConfigColor>,
    out_b: Seq<ConfigColor>,
)
    requires
        distinct_names(a),
        distinct_names(b),
        entries(a) == entries(b),
        arranged(a, out_a),
        arranged(b, out_b),
    ensures
        out_a == out_b,
{
    let oa = choose|order: Seq<int>| #[trigger]
        gradient_order(a, order) && out_a == Seq::new(order.len(), |p: int| a[order[p]].1);
    let ob = choose|order: Seq<int>| #[trigger]
        gradient_order(b, order) && out_b == Seq::new(order.len(), |p: int| b[order[p]].1);
    let x = Seq::new(oa.len(), |p: int| a[oa[p]].0@);
    let y = Seq::new(ob.len(), |p: int| b[ob[p]].0@);
    assert forall|p: int, q: int| 0 <= p < q < x.len() implies stop_before(
        #[trigger] x[p],
        #[trigger] x[q],
    ) by {
        order_runs_forward(a, oa, p, q);
    }
    assert forall|p: int, q: int| 0 <= p < q < y.len() implies stop_before(
        #[trigger] y[p],
        #[trigger] y[q],
    ) by {
        order_runs_forward(b, ob, p, q);
    }
    assert forall|p: int| 0 <= p < x.len() implies y.contains(#[trigger] x[p]) by {
        listed_names_agree(a, b, oa, ob, p);
        let q = choose|q: int| 0 <= q < ob.len() && b[#[trigger] ob[q]].0@ == a[oa[p]].0@;
        assert(y[q] == x[p]);
    }
    assert forall|p: int| 0 <= p < y.len() implies x.contains(#[trigger] y[p]) by {
        listed_names_agree(b, a, ob, oa, p);
        let q = choose|q: int| 0 <= q < oa.len() && a[#[trigger] oa[q]].0@ == b[ob[p]].0@;
        assert(x[q] == y[p]);
    }
    forward_lists_agree(x, y);
    assert forall|p: int| 0 <= p < out_a.len() implies out_a[p] == out_b[p] by {
        assert(x[p] == y[p]);
        let e = (a[oa[p]].0@, a[oa[p]].1);
        assert(entries(a).contains(e));
        assert(entries(b).contains(e));
        let j = choose|j: int| 0 <= j < b.len() && (#[trigger] b[j]).0@ == e.0 && b[j].1 == e.1;
        let k = ob[p];
        if j < k {
            assert(b[j].0@ != b[k].0@);
        } else if k < j {
            assert(b[k].0@ != b[j].0@);
        }
    }
    assert(out_a =~= out_b);
}

/// Ordering loses no stop and adds none.
pub proof fn no_stop_is_lost(colors: Seq<(String, ConfigColor)>, out: Seq<ConfigColor>)
    requires
        arranged(colors, out),
    ensures
        out.len() == colors.len(),
        forall|i: int| 0 <= i < colors.len() ==> out.contains((#[trigger] colors[i]).1),
{
    let order = choose|order: Seq<int>| #[trigger]
        gradient_order(colors, order) && out == Seq::new(order.len(), |p: int| colors[order[p]].1);
    assert forall|i: int| 0 <= i < colors.len() implies out.contains((#[trigger] colors[i]).1) by {
        order_is_onto(order, i);
        let p = choose|p: int| 0 <= p < order.len() && order[p] == i;
        assert(out[p] == colors[i].1);
    }
}

/// How many stops are uploaded: a lone one goes up twice.
pub open spec fn stops_uploaded(configured: int) -> int {
    if configured < 2 {
        2
    } else {
        configured
    }
}

/// Stops as the fragment shader sees them: always a pair to mix between.
pub fn uploaded_stops(configured: usize) -> (r: usize)
    ensures
        r == stops_uploaded(configured as int),
{
    if configured < 2 {
        2
    } else {
        configured
    }
}

/// The four bytes of `x`, the lowest first.
pub open spec fn little32(x: u32) -> Seq<u8> {
    seq![
        (x % 256) as u8,
        (x / 256 % 256) as u8,
        (x / 65536 % 256) as u8,
        (x / 16777216) as u8,
    ]
}

/// The sixteen bytes of a stop: its four numbers in order.
pub open spec fn stop_bytes(rgba: [Single; 4]) -> Seq<u8> {
    little32(rgba[0].bits) + little32(rgba[1].bits) + little32(rgba[2].bits) + little32(
        rgba[3].bits,
    )
}

/// The bytes of every stop, one after the other.
pub open spec fn stops_bytes(stops: Seq<[Single; 4]>) -> Seq<u8>
    decreases stops.len(),
{
    if stops.len() == 0 {
        Seq::empty()
    } else {
        stops_bytes(stops.drop_last()) + stop_bytes(stops.last())
    }
}

/// The stops that go up: a lone one twice.
pub open spec fn upload(stops: Seq<[Single; 4]>) -> Seq<[Single; 4]> {
    if stops.len() == 1 {
        stops + stops
    } else {
        stops
    }
}

/// The layout that the fragment shader declares: the count in four bytes,
/// twelve of padding, then the stops.
pub open spec fn gradient_layout(stops: Seq<[Single; 4]>) -> Seq<u8> {
    little32((stops_uploaded(stops.len() as int) % 0x1_0000_0000) as u32) + Seq::new(
        12,
        |i: int| 0u8,
    ) + stops_bytes(upload(stops))
}

fn push32(buf: &mut Vec<u8>, x: u32)
    ensures
        final(buf)@ == old(buf)@ + little32(x),
{
    buf.push((x % 256) as u8);
    buf.push((x / 256 % 256) as u8);
    buf.push((x / 65536 % 256) as u8);
    buf.push((x / 16777216) as u8);
}

fn push_stop(buf: &mut Vec<u8>, rgba: [Single; 4])
    ensures
        final(buf)@ == old(buf)@ + stop_bytes(rgba),
{
    push32(buf, rgba[0].bits);
    push32(buf, rgba[1].bits);
    push32(buf, rgba[2].bits);
    push32(buf, rgba[3].bits);
}

/// Pack the stops for upload.
pub fn gradient_buffer(rgba: &[[Single; 4]]) -> (buf: Vec<u8>)
    requires
        rgba@.len() > 0,
    ensures
        buf@ == gradient_layout(rgba@),
{
    let stops: usize = uploaded_stops(rgba.len());
    let mut buf: Vec<u8> = Vec::new();
    let count: u32 = (stops as u64 % 0x1_0000_0000) as u32;
    push32(&mut buf, count);
    for i in 0..12usize
        invariant
            buf@ == little32(count) + Seq::new(i as nat, |j: int| 0u8),
    {
        buf.push(0);
        assert(buf@ =~= little32(count) + Seq::new((i + 1) as nat, |j: int| 0u8));
    }
    let ghost head = buf@;
    for i in 0..rgba.len()
        invariant
            buf@ == head + stops_bytes(rgba@.take(i as int)),
    {
        push_stop(&mut buf, rgba[i]);
        assert(rgba@.take(i + 1).drop_last() == rgba@.take(i as int));
        assert(buf@ =~= head + stops_bytes(rgba@.take(i + 1)));
    }
    assert(rgba@.take(rgba@.len() as int) == rgba@);
    if rgba.len() == 1 {
        push_stop(&mut buf, rgba[0]);
        assert(upload(rgba@).drop_last() =~= rgba@);
        assert(buf@ =~= head + stops_bytes(upload(rgba@)));
    }
    buf
}

proof fn stops_bytes_len(stops: Seq<[Single; 4]>)
    ensures
        stops_bytes(stops).len() == 16 * stops.len(),
    decreases stops.len(),
{
    if stops.len() > 0 {
        stops_bytes_len(stops.drop_last());
    }
}

/// The buffer is one header of sixteen bytes and sixteen for each stop that
/// the count reports, so the shader never reads past it.
pub proof fn the_count_matches_the_buffer(stops: Seq<[Single; 4]>)
    requires
        stops.len() > 0,
    ensures
        gradient_layout(stops).len() == 16 + 16 * stops_uploaded(stops.len() as int),
{
    stops_bytes_len(upload(stops));
}

/// A stop that states no opacity is opaque, whether it is written short or as
/// a table, and whether or not the scheme gives its colour; one that states an
/// opacity has that one.
pub proof fn a_stop_without_opacity_is_opaque(
    stop: ConfigColor,
    scheme: Option<Seq<(String, String)>>,
    out: Colour,
)
    requires
        resolved(stop, scheme, out),
    ensures
        match stop {
            ConfigColor::Simple(_) => out.alpha.bits == 0x3f80_0000,
            ConfigColor::Complex(c) => match c.alpha {
                Some(a) => out.alpha == a,
                None => out.alpha.bits == 0x3f80_0000,
            },
        },
{
}

/// A stop shows the colour that the scheme gives for its role, where the
/// scheme has one that can be read, and its own in every other case.
pub proof fn a_role_is_looked_up_in_the_scheme(
    stop: ConfigColor,
    roles: Seq<(String, String)>,
    out: Colour,
    i: int,
)
    requires
        resolved(stop, Some(roles), out),
        distinct_names(roles),
        0 <= i < roles.len(),
    ensures
        match stop {
            ConfigColor::Simple(hex) => out == colour_of(hex@, out.alpha),
            ConfigColor::Complex(c) => {
                &&& c.role is None ==> out == colour_of(c.hex@, out.alpha)
                &&& c.role is Some && c.role->0@ == roles[i].0@ ==> out == colour_of(
                    if is_colour(roles[i].1@) {
                        roles[i].1@
                    } else {
                        c.hex@
                    },
                    out.alpha,
                )
            },
        },
{
    if let ConfigColor::Complex(c) = stop {
        if c.role is Some && c.role->0@ == roles[i].0@ {
            assert forall|j: int| 0 <= j < roles.len() && j != i implies (#[trigger] roles[j]).0@
                != roles[i].0@ by {
                if j < i {
                    assert(roles[j].0@ != roles[i].0@);
                } else {
                    assert(roles[i].0@ != roles[j].0@);
                }
            }
            assert(found_at(roles, c.role->0@, Some(i)));
            assert(is_colour(roles[i].1@) ==> live_at(stop, Some(roles), i));
        }
    }
}

/// The hexadecimal digit for `n`, small or capital, by its character's number.
pub open spec fn written_digit(n: int, capital: bool) -> char {
    if n < 10 {
        (48 + n) as char
    } else if capital {
        (65 + n - 10) as char
    } else {
        (97 + n - 10) as char
    }
}

/// Red, green and blue in two digits each, the higher first.
pub open spec fn written(r: u8, g: u8, b: u8, capital: spec_fn(int) -> bool) -> Seq<char> {
    seq![
        written_digit(r as int / 16, capital(0)),
        written_digit(r as int % 16, capital(1)),
        written_digit(g as int / 16, capital(2)),
        written_digit(g as int % 16, capital(3)),
        written_digit(b as int / 16, capital(4)),
        written_digit(b as int % 16, capital(5)),
    ]
}

proof fn written_digit_reads_back(n: int, capital: bool)
    requires
        0 <= n < 16,
    ensures
        nibble(written_digit(n, capital) as int) == Some(n as u8),
        written_digit(n, capital) != '#',
{
}

/// Every colour reads back from its six digits, small or capital, with a hash
/// before them or without.
pub proof fn a_written_colour_reads_back(
    r: u8,
    g: u8,
    b: u8,
    capital: spec_fn(int) -> bool,
    alpha: Single,
)
    ensures
        is_colour(written(r, g, b, capital)),
        is_colour(seq!['#'] + written(r, g, b, capital)),
        colour_of(written(r, g, b, capital), alpha) == (Colour {
            red: r,
            green: g,
            blue: b,
            alpha,
        }),
        colour_of(seq!['#'] + written(r, g, b, capital), alpha) == (Colour {
            red: r,
            green: g,
            blue: b,
            alpha,
        }),
{
    let w = written(r, g, b, capital);
    let h = seq!['#'] + w;
    written_digit_reads_back(r as int / 16, capital(0));
    written_digit_reads_back(r as int % 16, capital(1));
    written_digit_reads_back(g as int / 16, capital(2));
    written_digit_reads_back(g as int % 16, capital(3));
    written_digit_reads_back(b as int / 16, capital(4));
    written_digit_reads_back(b as int % 16, capital(5));
    assert(bare(w) == w);
    assert(h.drop_first() =~= w);
    assert(bare(h) == w);
    assert(w[0] == written_digit(r as int / 16, capital(0)));
    assert(w[1] == written_digit(r as int % 16, capital(1)));
    assert(w[2] == written_digit(g as int / 16, capital(2)));
    assert(w[3] == written_digit(g as int % 16, capital(3)));
    assert(w[4] == written_digit(b as int / 16, capital(4)));
    assert(w[5] == written_digit(b as int % 16, capital(5)));
}

/// Nothing else is a colour: not another length, and not another character.
pub proof fn nothing_else_is_a_colour(s: Seq<char>)
    requires
        is_colour(s),
    ensures
        s.len() == 6 || (s.len() == 7 && s[0] == '#'),
        forall|i: int|
            s.len() - 6 <= i < s.len() ==> {
                let c = #[trigger] s[i] as int;
                48 <= c <= 57 || 65 <= c <= 70 || 97 <= c <= 102
            },
{
    assert forall|i: int| s.len() - 6 <= i < s.len() implies ({
        let c = #[trigger] s[i] as int;
        48 <= c <= 57 || 65 <= c <= 70 || 97 <= c <= 102
    }) by {
        let k = i - (s.len() - 6);
        assert(bare(s)[k] == s[i]);
        assert(nibble(bare(s)[k] as int) is Some);
    }
}

proof fn digits_end_where_they_start(prefix: Seq<char>, digits: Seq<char>)
    requires
        prefix.len() == 0 || !digit(prefix.last()),
        forall|i: int| 0 <= i < digits.len() ==> digit(#[trigger] digits[i]),
    ensures
        digits_at_end(prefix + digits) == digits.len(),
    decreases digits.len(),
{
    if digits.len() > 0 {
        digits_end_where_they_start(prefix, digits.drop_last());
        assert((prefix + digits).drop_last() =~= prefix + digits.drop_last());
        assert((prefix + digits).last() == digits.last());
    } else {
        assert(prefix + digits =~= prefix);
    }
}

/// A name that ends in a number has that number, whatever stands before it.
pub proof fn a_trailing_number_is_the_names(prefix: Seq<char>, n: nat)
    requires
        prefix.len() == 0 || !('0' <= prefix.last() <= '9'),
        n <= u64::MAX,
    ensures
        number_of(prefix + shown(n)) == Some(n),
{
    shown_is_decimal(n);
    let name = prefix + shown(n);
    digits_end_where_they_start(prefix, shown(n));
    assert(name.skip(name.len() - digits_at_end(name)) =~= shown(n));
}

/// The gradient runs by number, not by spelling: of two stops whose names end
/// in numbers the one with the smaller number comes first, and any of them
/// comes before a stop whose name does not end in a digit.
pub proof fn the_gradient_runs_by_number(
    colors: Seq<(String, ConfigColor)>,
    out: Seq<ConfigColor>,
    i: int,
    j: int,
    prefix: Seq<char>,
    n: nat,
)
    requires
        arranged(colors, out),
        0 <= i < colors.len(),
        0 <= j < colors.len(),
        prefix.len() == 0 || !('0' <= prefix.last() <= '9'),
        n <= u64::MAX,
        colors[i].0@ == prefix + shown(n),
        ({
            let other = colors[j].0@;
            ||| other.len() == 0 || !('0' <= other.last() <= '9')
            ||| exists|p: Seq<char>, m: nat|
                (p.len() == 0 || !('0' <= p.last() <= '9')) && n < m <= u64::MAX && other
                    == #[trigger] (p + shown(m))
        }),
    ensures
        exists|p: int, q: int|
            0 <= p < q < out.len() && #[trigger] out[p] == colors[i].1 && #[trigger] out[q]
                == colors[j].1,
{
    let (a, b) = (colors[i].0@, colors[j].0@);
    a_trailing_number_is_the_names(prefix, n);
    if b.len() == 0 || !('0' <= b.last() <= '9') {
        assert(digits_at_end(b) == 0);
        assert(b.skip(b.len() as int).len() == 0);
        assert(number_of(b) is None);
    } else {
        let (p, m) = choose|p: Seq<char>, m: nat|
            (p.len() == 0 || !('0' <= p.last() <= '9')) && n < m <= u64::MAX && b == #[trigger] (p
                + shown(m));
        a_trailing_number_is_the_names(p, m);
    }
    assert(stop_before(a, b));
    stop_order(a, b, a);
    let order = choose|order: Seq<int>| #[trigger]
        gradient_order(colors, order) && out == Seq::new(order.len(), |p: int| colors[order[p]].1);
    order_is_onto(order, i);
    order_is_onto(order, j);
    let p = choose|p: int| 0 <= p < order.len() && order[p] == i;
    let q = choose|q: int| 0 <= q < order.len() && order[q] == j;
    if q < p {
        assert(!stop_before(colors[order[p]].0@, colors[order[q]].0@));
    }
    assert(out[p] == colors[i].1 && out[q] == colors[j].1);
}

/// The number that four bytes write, the lowest first.
pub open spec fn word_in(b: Seq<u8>, at: int) -> int {
    b[at] + 256 * b[at + 1] + 65536 * b[at + 2] + 16777216 * b[at + 3]
}

proof fn little32_reads_back(x: u32)
    ensures
        little32(x).len() == 4,
        word_in(little32(x), 0) == x,
{
    let s = little32(x);
    assert(s[0] == x % 256 && s[1] == x / 256 % 256 && s[2] == x / 65536 % 256 && s[3] == x
        / 16777216);
    assert(x % 256 + 256 * (x / 256 % 256) + 65536 * (x / 65536 % 256) + 16777216 * (x / 16777216)
        == x);
}

proof fn channel_in_stop(rgba: [Single; 4], c: int)
    requires
        0 <= c < 4,
    ensures
        stop_bytes(rgba).len() == 16,
        word_in(stop_bytes(rgba), 4 * c) == rgba[c].bits,
{
    let s = stop_bytes(rgba);
    little32_reads_back(rgba[0].bits);
    little32_reads_back(rgba[1].bits);
    little32_reads_back(rgba[2].bits);
    little32_reads_back(rgba[3].bits);
    let w = little32(rgba[c].bits);
    assert(s[4 * c] == w[0] && s[4 * c + 1] == w[1] && s[4 * c + 2] == w[2] && s[4 * c + 3]
        == w[3]) by {
        if c == 0 {
        } else if c == 1 {
        } else if c == 2 {
        } else {
        }
    }
}

proof fn channel_in_stops(stops: Seq<[Single; 4]>, k: int, c: int)
    requires
        0 <= k < stops.len(),
        0 <= c < 4,
    ensures
        word_in(stops_bytes(stops), 16 * k + 4 * c) == stops[k][c].bits,
    decreases stops.len(),
{
    let rest = stops_bytes(stops.drop_last());
    let all = stops_bytes(stops);
    let at = 16 * k + 4 * c;
    stops_bytes_len(stops.drop_last());
    channel_in_stop(stops.last(), c);
    if k == stops.len() - 1 {
        let s = stop_bytes(stops.last());
        assert(all[at] == s[4 * c] && all[at + 1] == s[4 * c + 1] && all[at + 2] == s[4 * c + 2]
            && all[at + 3] == s[4 * c + 3]);
    } else {
        channel_in_stops(stops.drop_last(), k, c);
        assert(all[at] == rest[at] && all[at + 1] == rest[at + 1] && all[at + 2] == rest[at + 2]
            && all[at + 3] == rest[at + 3]);
    }
}

/// What is packed reads back channel by channel: behind sixteen bytes each stop
/// takes sixteen, and in them red, green, blue and opacity take four each, the
/// lowest byte first. A lone stop is there twice.
pub proof fn every_channel_reads_back(stops: Seq<[Single; 4]>, k: int, c: int)
    requires
        0 <= c < 4,
        0 <= k < stops.len() || (stops.len() == 1 && k == 1),
    ensures
        word_in(gradient_layout(stops), 16 + 16 * k + 4 * c) == (if k < stops.len() {
            stops[k][c].bits
        } else {
            stops[0][c].bits
        }),
{
    let up = upload(stops);
    let body = stops_bytes(up);
    let all = gradient_layout(stops);
    let at = 16 * k + 4 * c;
    stops_bytes_len(up);
    channel_in_stops(up, k, c);
    assert(little32((stops_uploaded(stops.len() as int) % 0x1_0000_0000) as u32).len() == 4);
    assert(all[16 + at] == body[at] && all[16 + at + 1] == body[at + 1] && all[16 + at + 2]
        == body[at + 2] && all[16 + at + 3] == body[at + 3]);
}

/// The header is the count of the stops that follow, which is that of the
/// stops given, or two for a lone one, and twelve bytes of nothing.
pub proof fn the_header_counts_the_stops(stops: Seq<[Single; 4]>)
    requires
        0 < stops.len() < 0x1_0000_0000,
    ensures
        word_in(gradient_layout(stops), 0) == (if stops.len() == 1 {
            2
        } else {
            stops.len() as int
        }),
        gradient_layout(stops).len() == 16 + 16 * word_in(gradient_layout(stops), 0),
        forall|i: int| 4 <= i < 16 ==> #[trigger] gradient_layout(stops)[i] == 0,
{
    let n = (stops_uploaded(stops.len() as int) % 0x1_0000_0000) as u32;
    let all = gradient_layout(stops);
    little32_reads_back(n);
    stops_bytes_len(upload(stops));
    let w = little32(n);
    assert(all[0] == w[0] && all[1] == w[1] && all[2] == w[2] && all[3] == w[3]);
}

/// A lone stop is uploaded twice, and any other number as it is.
pub proof fn there_are_two_stops_to_mix(configured: int)
    ensures
        configured >= 2 ==> stops_uploaded(configured) == configured,
        0 <= configured < 2 ==> stops_uploaded(configured) == 2,
{
}

/// A stop can be read where its own text is a colour, and without a scheme
/// nowhere else; a scheme never makes a stop unreadable.
pub proof fn a_stop_is_readable_by_itself(
    stop: ConfigColor,
    roles: Seq<(String, String)>,
    i: int,
)
    requires
        distinct_names(roles),
        0 <= i < roles.len(),
    ensures
        readable(stop, None) <==> is_colour(
            match stop {
                ConfigColor::Simple(hex) => hex@,
                ConfigColor::Complex(c) => c.hex@,
            },
        ),
        readable(stop, None) ==> readable(stop, Some(roles)),
        (stop matches ConfigColor::Complex(c) && c.role is Some && c.role->0@ == roles[i].0@
            && is_colour(roles[i].1@)) ==> readable(stop, Some(roles)),
        stop is Simple ==> readable(stop, Some(roles)) == readable(stop, None),
{
    if let ConfigColor::Complex(c) = stop {
        if c.role is Some && c.role->0@ == roles[i].0@ && is_colour(roles[i].1@) {
            assert forall|j: int| 0 <= j < i implies (#[trigger] roles[j]).0@ != roles[i].0@ by {
                assert(roles[j].0@ != roles[i].0@);
            }
            assert(live_at(stop, Some(roles), i));
        }
    }
}

/// A scheme that cannot be read leaves what is shown, and one that can be is
/// shown wherever every stop has a colour of its own; the count of stops never
/// changes.
pub proof fn a_broken_scheme_changes_nothing(
    stops: Seq<ConfigColor>,
    raw: Option<&str>,
    r: Reload,
)
    requires
        reloaded(stops, raw, r),
        forall|k: int| 0 <= k < stops.len() ==> is_colour(own_hex(#[trigger] stops[k])),
    ensures
        raw is None || scheme_colours(raw->0@) is None ==> r is Keep,
        raw is Some && scheme_colours(raw->0@) is Some ==> r is Show,
        r matches Reload::Show(out) ==> out@.len() == stops.len(),
{
    if let Reload::Unreadable(k) = r {
        assert(is_colour(own_hex(stops[k as int])));
    }
}

/// Stops that are read anew are shown wherever every one has a colour of its
/// own: as the scheme has them where it can be read, and as they are written
/// where it cannot.
pub proof fn stops_read_anew_are_shown(stops: Seq<ConfigColor>, raw: Option<&str>, r: Reload, k: int)
    requires
        reread(stops, raw, r),
        forall|k: int| 0 <= k < stops.len() ==> is_colour(own_hex(#[trigger] stops[k])),
        0 <= k < stops.len(),
    ensures
        r is Show,
        r->Show_0@.len() == stops.len(),
        raw is None || scheme_colours(raw->0@) is None ==> r->Show_0@[k] == colour_of(
            own_hex(stops[k]),
            r->Show_0@[k].alpha,
        ),
{
    if let Reload::Unreadable(j) = r {
        assert(is_colour(own_hex(stops[j as int])));
    }
    if let Reload::Show(out) = r {
        let scheme = choose|scheme: Option<Seq<(String, String)>>| #[trigger]
            scheme_or_none(raw, scheme) && forall|k: int|
                0 <= k < stops.len() ==> resolved(stops[k], scheme, #[trigger] out@[k]);
        assert(resolved(stops[k], scheme, out@[k]));
    }
}

/// Of two stops with the same number, and of two without any, the one whose
/// name sorts first comes first.
pub proof fn names_decide_between_equals(
    colors: Seq<(String, ConfigColor)>,
    out: Seq<ConfigColor>,
    i: int,
    j: int,
)
    requires
        arranged(colors, out),
        0 <= i < colors.len(),
        0 <= j < colors.len(),
        before(colors[i].0@, colors[j].0@),
        ({
            let (a, b) = (colors[i].0@, colors[j].0@);
            ||| (a.len() == 0 || !('0' <= a.last() <= '9')) && (b.len() == 0 || !('0' <= b.last()
                <= '9'))
            ||| exists|p: Seq<char>, q: Seq<char>, n: nat|
                (p.len() == 0 || !('0' <= p.last() <= '9')) && (q.len() == 0 || !('0' <= q.last()
                    <= '9')) && n <= u64::MAX && a == #[trigger] (p + shown(n)) && b
                    == #[trigger] (q + shown(n))
        }),
    ensures
        exists|p: int, q: int|
            0 <= p < q < out.len() && #[trigger] out[p] == colors[i].1 && #[trigger] out[q]
                == colors[j].1,
{
    let (a, b) = (colors[i].0@, colors[j].0@);
    if (a.len() == 0 || !('0' <= a.last() <= '9')) && (b.len() == 0 || !('0' <= b.last() <= '9')) {
        assert(digits_at_end(a) == 0 && digits_at_end(b) == 0);
        assert(a.skip(a.len() as int).len() == 0 && b.skip(b.len() as int).len() == 0);
    } else {
        let (p, q, n) = choose|p: Seq<char>, q: Seq<char>, n: nat|
            (p.len() == 0 || !('0' <= p.last() <= '9')) && (q.len() == 0 || !('0' <= q.last()
                <= '9')) && n <= u64::MAX && a == #[trigger] (p + shown(n)) && b == #[trigger] (q
                + shown(n));
        a_trailing_number_is_the_names(p, n);
        a_trailing_number_is_the_names(q, n);
    }
    assert(stop_before(a, b));
    stop_order(a, b, a);
    let order = choose|order: Seq<int>| #[trigger]
        gradient_order(colors, order) && out == Seq::new(order.len(), |p: int| colors[order[p]].1);
    order_is_onto(order, i);
    order_is_onto(order, j);
    let p = choose|p: int| 0 <= p < order.len() && order[p] == i;
    let q = choose|q: int| 0 <= q < order.len() && order[q] == j;
    if q < p {
        assert(!stop_before(colors[order[p]].0@, colors[order[q]].0@));
    }
    assert(out[p] == colors[i].1 && out[q] == colors[j].1);
}

/// A role that the scheme does not carry leaves the stop its own colour.
pub proof fn a_missing_role_falls_back(
    stop: ConfigColor,
    roles: Seq<(String, String)>,
    out: Colour,
)
    requires
        resolved(stop, Some(roles), out),
        stop matches ConfigColor::Complex(c) && c.role is Some && forall|j: int|
            0 <= j < roles.len() ==> (#[trigger] roles[j]).0@ != c.role->0@,
    ensures
        stop matches ConfigColor::Complex(c) && out == colour_of(c.hex@, out.alpha),
{
}

} // verus!
