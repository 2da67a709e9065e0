//! Which output to be on, and when to move.
use crate::text::{before, chars, is_before, same, stands_at};
use crate::text::{before_irreflexive, before_total, before_transitive, occurs_at, text_view};
use vstd::prelude::*;

verus! {

/// A connected output, as far as the compositor has described it.
#[derive(Debug)]
pub struct Output {
    pub name: Option<String>,
    /// Its size in logical pixels.
    pub logical_size: Option<(i32, i32)>,
}

/// The connector is the machine's own panel: `eDP`, `LVDS` or `DSI`.
pub open spec fn builtin_connector(name: Seq<char>) -> bool {
    occurs_at(name, "eDP"@, 0) || occurs_at(name, "LVDS"@, 0) || occurs_at(name, "DSI"@, 0)
}

/// Whether the connector is the machine's own panel.
pub fn is_builtin_connector(name: &str) -> (r: bool)
    ensures
        r == builtin_connector(name@),
{
    let cs = chars(name);
    let edp = chars("eDP");
    let lvds = chars("LVDS");
    let dsi = chars("DSI");
    stands_at(cs.as_slice(), edp.as_slice(), 0) || stands_at(cs.as_slice(), lvds.as_slice(), 0)
        || stands_at(cs.as_slice(), dsi.as_slice(), 0)
}

/// How an output ranks, lowest first; `None` where it is not to be used.
///
/// A pin leaves no output but the pinned one. Without a pin the machine's own
/// panel comes last.
pub open spec fn rank_of(pinned: Option<Seq<char>>, name: Seq<char>) -> Option<u8> {
    match pinned {
        Some(pin) => if pin == name {
            Some(0u8)
        } else {
            None
        },
        None => Some(
            if builtin_connector(name) {
                1u8
            } else {
                0u8
            },
        ),
    }
}

/// The rank of the output `name`.
pub fn output_rank(pinned: &Option<String>, name: &str) -> (r: Option<u8>)
    ensures
        r == rank_of(text_view(*pinned), name@),
{
    match pinned {
        Some(pin) => if same(pin.as_str(), name) {
            Some(0)
        } else {
            None
        },
        None => if is_builtin_connector(name) {
            Some(1)
        } else {
            Some(0)
        },
    }
}

/// The output can be drawn on: it has a size and a name, and ranks.
pub open spec fn eligible(o: Output, pinned: Option<Seq<char>>) -> bool {
    o.logical_size is Some && o.name is Some && rank_of(pinned, o.name->0@) is Some
}

/// Output `a` comes before output `b`: by rank, then by name.
pub open spec fn preferred(a: Output, b: Output, pinned: Option<Seq<char>>) -> bool {
    let ra = rank_of(pinned, a.name->0@)->0;
    let rb = rank_of(pinned, b.name->0@)->0;
    ra < rb || (ra == rb && before(a.name->0@, b.name->0@))
}

/// `r` is the place of the first eligible output that no other one comes
/// before, or `None` where none is eligible.
pub open spec fn chosen(outputs: Seq<Output>, pinned: Option<Seq<char>>, r: Option<int>) -> bool {
    match r {
        None => forall|j: int|
            0 <= j < outputs.len() ==> !eligible(#[trigger] outputs[j], pinned),
        Some(i) => {
            &&& 0 <= i < outputs.len()
            &&& eligible(outputs[i], pinned)
            &&& forall|j: int|
                0 <= j < outputs.len() && eligible(#[trigger] outputs[j], pinned) ==> !preferred(
                    outputs[j],
                    outputs[i],
                    pinned,
                )
            &&& forall|j: int|
                0 <= j < i && eligible(#[trigger] outputs[j], pinned) ==> preferred(
                    outputs[i],
                    outputs[j],
                    pinned,
                )
        },
    }
}

/// An index, as a position.
pub open spec fn position(i: Option<usize>) -> Option<int> {
    match i {
        Some(n) => Some(n as int),
        None => None,
    }
}

proof fn preferred_transitive(a: Output, b: Output, c: Output, pinned: Option<Seq<char>>)
    requires
        preferred(a, b, pinned),
        preferred(b, c, pinned),
    ensures
        preferred(a, c, pinned),
{
    if before(a.name->0@, b.name->0@) && before(b.name->0@, c.name->0@) {
        before_transitive(a.name->0@, b.name->0@, c.name->0@);
    }
}

proof fn not_preferred_to_itself(a: Output, pinned: Option<Seq<char>>)
    ensures
        !preferred(a, a, pinned),
{
    before_irreflexive(a.name->0@);
}

proof fn preferred_total(a: Output, b: Output, pinned: Option<Seq<char>>)
    requires
        eligible(a, pinned),
        eligible(b, pinned),
    ensures
        preferred(a, b, pinned) || preferred(b, a, pinned) || a.name->0@ == b.name->0@,
{
    before_total(a.name->0@, b.name->0@);
}

fn is_preferred(a: &str, ra: u8, b: &str, rb: u8) -> (r: bool)
    ensures
        r == (ra < rb || (ra == rb && before(a@, b@))),
{
    ra < rb || (ra == rb && is_before(a, b))
}

/// The output to be on, out of everything that is connected.
pub fn choose_output(outputs: &[Output], pinned: &Option<String>) -> (r: Option<usize>)
    ensures
        chosen(outputs@, text_view(*pinned), position(r)),
{
    let mut best: Option<usize> = None;
    let ghost pin = text_view(*pinned);
    for i in 0..outputs.len()
        invariant
            pin == text_view(*pinned),
            best is Some ==> best->0 < i,
            chosen(outputs@.take(i as int), pin, position(best)),
    {
        let ghost seen = outputs@.take(i as int);
        let ghost now = outputs@.take(i + 1);
        assert(forall|j: int| 0 <= j < i ==> now[j] == seen[j]);
        assert(now[i as int] == outputs@[i as int]);
        let o = &outputs[i];
        let mut better = false;
        if o.logical_size.is_some() {
            if let Some(name) = &o.name {
                if let Some(rank) = output_rank(pinned, name.as_str()) {
                    assert(eligible(outputs@[i as int], pin));
                    better = match best {
                        None => true,
                        Some(b) => {
                            assert(seen[b as int] == outputs@[b as int]);
                            match &outputs[b].name {
                                Some(other) => match output_rank(pinned, other.as_str()) {
                                    Some(r) => is_preferred(
                                        name.as_str(),
                                        rank,
                                        other.as_str(),
                                        r,
                                    ),
                                    None => false,
                                },
                                None => false,
                            }
                        },
                    };
                }
            }
        }
        proof {
            let new = outputs@[i as int];
            not_preferred_to_itself(new, pin);
            if let Some(b) = best {
                let old_best = outputs@[b as int];
                assert(seen[b as int] == old_best);
                assert(better == (eligible(new, pin) && preferred(new, old_best, pin)));
                if better {
                    assert forall|j: int| 0 <= j < now.len() && eligible(#[trigger] now[j], pin)
                        && j < i implies preferred(new, now[j], pin) && !preferred(
                        now[j],
                        new,
                        pin,
                    ) by {
                        assert(now[j] == seen[j]);
                        if preferred(now[j], new, pin) {
                            preferred_transitive(now[j], new, old_best, pin);
                        }
                        preferred_total(old_best, now[j], pin);
                        if preferred(old_best, now[j], pin) {
                            preferred_transitive(new, old_best, now[j], pin);
                        }
                    }
                }
            }
        }
        if better {
            best = Some(i);
        }
    }
    assert(outputs@.take(outputs@.len() as int) =~= outputs@);
    best
}

/// Where the surface is: the output's name, and the size it was built for.
#[derive(Debug)]
pub struct Placed {
    pub on: Option<String>,
    pub size: Option<(i32, i32)>,
}

/// What to do about the outputs.
#[derive(Clone, Copy, Debug, PartialEq, Eq, Structural)]
pub enum Move {
    /// Nothing is worth rebuilding for.
    Stay,
    /// There is no output to be on. Said aloud where there was one before.
    Idle { lost: bool },
    /// Build a surface on this output.
    Place(usize),
}

/// An output of this name is connected.
pub open spec fn connected(outputs: Seq<Output>, name: Seq<char>) -> bool {
    exists|j: int| 0 <= j < outputs.len() && text_view((#[trigger] outputs[j]).name) == Some(name)
}

/// The output that the surface is on has gone.
pub open spec fn gone(p: Placed, outputs: Seq<Output>) -> bool {
    p.on is Some && !connected(outputs, p.on->0@)
}

/// The surface is on `o`, built for its size.
pub open spec fn settled_on(p: Placed, o: Output) -> bool {
    text_view(p.on) == text_view(o.name) && p.size == o.logical_size
}

/// What running the policy does to a placement `p`, and what it asks for.
///
/// A placement whose output has gone is dropped before a new output is
/// chosen. Where there is none to be on, the name is forgotten, and the size
/// too where there was no name.
pub open spec fn retargeted(
    p: Placed,
    outputs: Seq<Output>,
    pin: Option<Seq<char>>,
    q: Placed,
    r: Move,
) -> bool {
    let was_on = if gone(p, outputs) {
        None
    } else {
        text_view(p.on)
    };
    let was_size = if gone(p, outputs) {
        None
    } else {
        p.size
    };
    match r {
        Move::Idle { lost } => {
            &&& chosen(outputs, pin, None)
            &&& lost == (was_on is Some || was_size is Some)
            &&& q.on is None
            &&& q.size == if was_on is Some {
                was_size
            } else {
                None
            }
        },
        Move::Stay => {
            &&& exists|i: int| #[trigger]
                chosen(outputs, pin, Some(i)) && settled_on(q, outputs[i])
            &&& text_view(q.on) == was_on
            &&& q.size == was_size
        },
        Move::Place(i) => {
            &&& chosen(outputs, pin, Some(i as int))
            &&& !settled_on(q, outputs[i as int])
            &&& text_view(q.on) == was_on
            &&& q.size == was_size
        },
    }
}

fn is_connected(outputs: &[Output], name: &str) -> (r: bool)
    ensures
        r == connected(outputs@, name@),
{
    for i in 0..outputs.len()
        invariant
            forall|j: int| 0 <= j < i ==> text_view((#[trigger] outputs@[j]).name) != Some(name@),
    {
        if let Some(n) = &outputs[i].name {
            if same(n.as_str(), name) {
                assert(text_view(outputs@[i as int].name) == Some(name@));
                return true;
            }
        }
    }
    false
}

impl Placed {
    /// Runs the whole policy against what is connected right now.
    pub fn retarget(&mut self, outputs: &[Output], pinned: &Option<String>) -> (r: Move)
        ensures
            retargeted(*old(self), outputs@, text_view(*pinned), *final(self), r),
    {
        let still = match &self.on {
            Some(name) => is_connected(outputs, name.as_str()),
            None => true,
        };
        if !still {
            self.on = None;
            self.size = None;
        }
        match choose_output(outputs, pinned) {
            None => {
                if self.on.is_some() {
                    self.on = None;
                    Move::Idle { lost: true }
                } else if self.size.is_some() {
                    self.size = None;
                    Move::Idle { lost: true }
                } else {
                    Move::Idle { lost: false }
                }
            },
            Some(i) => {
                assert(position(Some(i)) == Some(i as int));
                let o = &outputs[i];
                let same_name = match (&self.on, &o.name) {
                    (Some(a), Some(b)) => same(a.as_str(), b.as_str()),
                    _ => false,
                };
                let same_size = match (self.size, o.logical_size) {
                    (Some(a), Some(b)) => a.0 == b.0 && a.1 == b.1,
                    (None, None) => true,
                    _ => false,
                };
                if same_name && same_size {
                    Move::Stay
                } else {
                    Move::Place(i)
                }
            },
        }
    }

    /// The surface stands on `o` from now on.
    pub fn settle(&mut self, o: &Output)
        requires
            o.name is Some,
        ensures
            settled_on(*final(self), *o),
    {
        if let Some(name) = &o.name {
            let cs = chars(name.as_str());
            self.on = Some(crate::text::string_of(cs.as_slice()));
        }
        self.size = o.logical_size;
    }
}

/// Once the surface stands on the chosen output, running the policy again
/// moves nothing: an unrelated change does not tear the surface down.
pub proof fn a_settled_surface_stays(
    p: Placed,
    outputs: Seq<Output>,
    pin: Option<Seq<char>>,
    i: int,
    q: Placed,
    r: Move,
)
    requires
        chosen(outputs, pin, Some(i)),
        settled_on(p, outputs[i]),
        retargeted(p, outputs, pin, q, r),
    ensures
        r == Move::Stay,
        text_view(q.on) == text_view(p.on),
        q.size == p.size,
{
    assert(text_view(outputs[i].name) == Some(p.on->0@));
    assert(!gone(p, outputs));
    assert(eligible(outputs[i], pin));
    if let Move::Place(k) = r {
        let k = k as int;
        assert(eligible(outputs[k], pin));
        if i < k {
            assert(preferred(outputs[k], outputs[i], pin));
        }
        if k < i {
            assert(preferred(outputs[i], outputs[k], pin));
        }
    }
}

/// A pin excludes everything else: whatever is chosen is the pinned output,
/// and a pin that nothing matches chooses nothing.
pub proof fn a_pin_excludes_everything_else(
    outputs: Seq<Output>,
    pin: Seq<char>,
    r: Option<int>,
)
    requires
        chosen(outputs, Some(pin), r),
    ensures
        r is Some ==> text_view(outputs[r->0].name) == Some(pin),
        !connected(outputs, pin) ==> r is None,
{
    if let Some(i) = r {
        assert(text_view(outputs[i].name) == Some(pin));
    }
}

/// The machine's own panel is chosen only where nothing else can be.
pub proof fn an_external_monitor_is_preferred(outputs: Seq<Output>, i: int, j: int)
    requires
        chosen(outputs, None, Some(i)),
        0 <= j < outputs.len(),
        eligible(outputs[j], None),
        !builtin_connector(outputs[j].name->0@),
    ensures
        !builtin_connector(outputs[i].name->0@),
{
    assert(!preferred(outputs[j], outputs[i], None));
}

/// Some output that can be drawn on has this name.
pub open spec fn offers(outputs: Seq<Output>, pinned: Option<Seq<char>>, name: Seq<char>) -> bool {
    exists|j: int|
        0 <= j < outputs.len() && eligible(#[trigger] outputs[j], pinned) && outputs[j].name->0@
            == name
}

/// The choice does not hang on the order in which outputs are announced: two
/// lists that offer the same names give the same name.
pub proof fn the_choice_is_stable(
    a: Seq<Output>,
    b: Seq<Output>,
    pinned: Option<Seq<char>>,
    ra: Option<int>,
    rb: Option<int>,
)
    requires
        chosen(a, pinned, ra),
        chosen(b, pinned, rb),
        forall|name: Seq<char>| offers(a, pinned, name) == offers(b, pinned, name),
    ensures
        ra is Some == rb is Some,
        ra is Some ==> a[ra->0].name->0@ == b[rb->0].name->0@,
{
    if let Some(i) = ra {
        assert(offers(a, pinned, a[i].name->0@));
        assert(offers(b, pinned, a[i].name->0@));
    }
    if let Some(i) = rb {
        assert(offers(b, pinned, b[i].name->0@));
        assert(offers(a, pinned, b[i].name->0@));
    }
    if ra is Some && rb is Some {
        let x = a[ra->0];
        let y = b[rb->0];
        let k = choose|k: int|
            0 <= k < b.len() && eligible(#[trigger] b[k], pinned) && b[k].name->0@ == x.name->0@;
        let l = choose|l: int|
            0 <= l < a.len() && eligible(#[trigger] a[l], pinned) && a[l].name->0@ == y.name->0@;
        assert(!preferred(b[k], y, pinned));
        assert(!preferred(a[l], x, pinned));
        preferred_total(x, y, pinned);
    }
}

/// The machine's own panel is known by the start of its name: `eDP`, `LVDS` or
/// `DSI`, in just these letters, whatever follows.
pub proof fn a_panel_is_known_by_its_name(name: Seq<char>)
    ensures
        name.len() >= 3 && name[0] == 'e' && name[1] == 'D' && name[2] == 'P'
            ==> builtin_connector(name),
        name.len() >= 3 && name[0] == 'D' && name[1] == 'S' && name[2] == 'I'
            ==> builtin_connector(name),
        name.len() >= 4 && name[0] == 'L' && name[1] == 'V' && name[2] == 'D' && name[3] == 'S'
            ==> builtin_connector(name),
        builtin_connector(name) ==> name.len() >= 3 && ((name[0] == 'e' && name[1] == 'D' && name[2]
            == 'P') || (name[0] == 'D' && name[1] == 'S' && name[2] == 'I') || (name.len() >= 4
            && name[0] == 'L' && name[1] == 'V' && name[2] == 'D' && name[3] == 'S')),
{
    reveal_strlit("eDP");
    reveal_strlit("LVDS");
    reveal_strlit("DSI");
    if name.len() >= 3 {
        let t = name.subrange(0, 3);
        assert(t[0] == name[0] && t[1] == name[1] && t[2] == name[2]);
        if name[0] == 'e' && name[1] == 'D' && name[2] == 'P' {
            assert(t =~= "eDP"@);
        }
        if name[0] == 'D' && name[1] == 'S' && name[2] == 'I' {
            assert(t =~= "DSI"@);
        }
    }
    if name.len() >= 4 {
        let t = name.subrange(0, 4);
        assert(t[0] == name[0] && t[1] == name[1] && t[2] == name[2] && t[3] == name[3]);
        if name[0] == 'L' && name[1] == 'V' && name[2] == 'D' && name[3] == 'S' {
            assert(t =~= "LVDS"@);
        }
    }
}

/// Whatever is chosen can be drawn on, and something is wherever something can
/// be; of outputs that rank alike the one whose name sorts first is chosen.
pub proof fn the_first_name_is_chosen(outputs: Seq<Output>, i: int, j: int)
    requires
        chosen(outputs, None, Some(i)),
        0 <= j < outputs.len(),
        outputs[j].name is Some,
        outputs[j].logical_size is Some,
        builtin_connector(outputs[j].name->0@) == builtin_connector(outputs[i].name->0@),
    ensures
        outputs[i].name is Some,
        outputs[i].logical_size is Some,
        !before(outputs[j].name->0@, outputs[i].name->0@),
        !chosen(outputs, None, None),
{
    assert(eligible(outputs[j], None));
    assert(!preferred(outputs[j], outputs[i], None));
}

/// A pinned output that has a name and a size is chosen.
pub proof fn a_pinned_output_is_chosen(outputs: Seq<Output>, pin: Seq<char>, r: Option<int>, j: int)
    requires
        chosen(outputs, Some(pin), r),
        0 <= j < outputs.len(),
        outputs[j].name is Some,
        outputs[j].name->0@ == pin,
        outputs[j].logical_size is Some,
    ensures
        r is Some,
        outputs[r->0].name is Some && outputs[r->0].name->0@ == pin,
{
    assert(eligible(outputs[j], Some(pin)));
}

/// A surface moves to the chosen output exactly where it is not there already,
/// or was built for another size; an output that has gone is forgotten, and
/// with nothing to be on the surface is on nothing.
pub proof fn a_surface_follows_the_choice(
    p: Placed,
    outputs: Seq<Output>,
    pin: Option<Seq<char>>,
    q: Placed,
    r: Move,
    i: int,
)
    requires
        retargeted(p, outputs, pin, q, r),
    ensures
        chosen(outputs, pin, None) ==> r is Idle && q.on is None,
        chosen(outputs, pin, Some(i)) && (p.on is None || p.size != outputs[i].logical_size
            || p.on->0@ != outputs[i].name->0@) ==> r is Place,
        r is Idle && p.on is Some && connected(outputs, p.on->0@) ==> r->lost,
        r is Idle && p.on is None && p.size is None ==> !r->lost,
        p.on is Some && !connected(outputs, p.on->0@) ==> q.on is None,
{
    if chosen(outputs, pin, Some(i)) {
        assert(eligible(outputs[i], pin));
        if let Move::Stay = r {
            let k = choose|k: int| #[trigger]
                chosen(outputs, pin, Some(k)) && settled_on(q, outputs[k]);
            assert(eligible(outputs[k], pin));
            if i < k {
                assert(preferred(outputs[k], outputs[i], pin));
            }
            if k < i {
                assert(preferred(outputs[i], outputs[k], pin));
            }
        }
    }
    if chosen(outputs, pin, None) {
        match r {
            Move::Stay => {
                let k = choose|k: int| #[trigger]
                    chosen(outputs, pin, Some(k)) && settled_on(q, outputs[k]);
                assert(eligible(outputs[k], pin));
            },
            Move::Place(k) => {
                assert(eligible(outputs[k as int], pin));
            },
            Move::Idle { lost } => {},
        }
    }
}

} // verus!
