//! The countable side of a venue: its identity, liveness, event count and
//! the bounded history of shocks that makes up its personality.
use vstd::prelude::*;

verus! {

/// How many personality traits a venue keeps.
pub const MAX_TRAITS: usize = 10;

/// The character of a decimal digit.
pub open spec fn digit_char(d: nat) -> char {
    (d + 48) as char
}

/// The decimal digits of `n`, most significant first, without leading zeros.
pub open spec fn decimal(n: nat) -> Seq<char>
    decreases n,
{
    if n < 10 {
        seq![digit_char(n)]
    } else {
        decimal(n / 10).push(digit_char(n % 10))
    }
}

/// The trait left by a shock: the venue's name, `-shocked-`, and the number
/// of the event that caused it.
pub open spec fn shock_trait(name: Seq<char>, count: nat) -> Seq<char> {
    name + "-shocked-"@ + decimal(count)
}

/// The texts of a list of traits.
pub open spec fn trait_texts(v: Seq<String>) -> Seq<Seq<char>> {
    v.map_values(|s: String| s@)
}

/// The most recent `MAX_TRAITS` of a history that has at most one too many.
pub open spec fn keep_recent(s: Seq<Seq<char>>) -> Seq<Seq<char>> {
    if s.len() > MAX_TRAITS {
        s.subrange(1, s.len() as int)
    } else {
        s
    }
}

/// The one-character text of a decimal digit.
fn digit_text(d: usize) -> (t: &'static str)
    requires
        d < 10,
    ensures
        t@ == seq![digit_char(d as nat)],
{
    proof {
        reveal_strlit("0");
        reveal_strlit("1");
        reveal_strlit("2");
        reveal_strlit("3");
        reveal_strlit("4");
        reveal_strlit("5");
        reveal_strlit("6");
        reveal_strlit("7");
        reveal_strlit("8");
        reveal_strlit("9");
    }
    match d {
        0 => "0",
        1 => "1",
        2 => "2",
        3 => "3",
        4 => "4",
        5 => "5",
        6 => "6",
        7 => "7",
        8 => "8",
        _ => "9",
    }
}

/// Appends the decimal digits of `n`.
fn append_decimal(s: &mut String, n: usize)
    ensures
        final(s)@ == old(s)@ + decimal(n as nat),
    decreases n,
{
    if n >= 10 {
        append_decimal(s, n / 10);
    }
    s.append(digit_text(n % 10));
    proof {
        assert(s@ =~= old(s)@ + decimal(n as nat)) by {
            if n >= 10 {
                assert(decimal(n as nat) == decimal((n / 10) as nat).push(digit_char((n % 10) as nat)));
            }
        }
    }
}

/// The trait left by a shock at event number `count` of venue `name`.
fn shock_trait_text(name: &str, count: usize) -> (s: String)
    ensures
        s@ == shock_trait(name@, count as nat),
{
    let mut s = name.to_owned();
    s.append("-shocked-");
    append_decimal(&mut s, count);
    proof {
        assert(s@ =~= shock_trait(name@, count as nat));
    }
    s
}

/// A venue's identity and bookkeeping.
pub struct VenueState {
    pub id: usize,
    pub name: String,
    pub event_count: usize,
    pub personality: Vec<String>,
    pub contrarian: bool,
    pub alive: bool,
}

impl VenueState {
    /// The history is bounded.
    pub open spec fn inv(&self) -> bool {
        self.personality@.len() <= MAX_TRAITS
    }

    /// A fresh venue: alive, not contrarian, with no events and no traits.
    pub fn new(id: usize, name: &str) -> (v: Self)
        ensures
            v.id == id,
            v.name@ == name@,
            v.event_count == 0,
            v.personality@.len() == 0,
            !v.contrarian,
            v.alive,
            v.inv(),
    {
        VenueState {
            id,
            name: name.to_owned(),
            event_count: 0,
            personality: Vec::new(),
            contrarian: false,
            alive: true,
        }
    }

    /// Counts one event at an alive venue; a shocking one adds the trait
    /// `<name>-shocked-<event number>`, the oldest trait leaving when there
    /// would be more than `MAX_TRAITS`. A dead venue is left as it is.
    pub fn record_event(&mut self, shocked: bool)
        requires
            old(self).inv(),
            old(self).alive ==> old(self).event_count < usize::MAX,
        ensures
            final(self).inv(),
            final(self).id == old(self).id,
            final(self).name@ == old(self).name@,
            final(self).contrarian == old(self).contrarian,
            final(self).alive == old(self).alive,
            !old(self).alive ==> final(self).event_count == old(self).event_count
                && final(self).personality@ == old(self).personality@,
            old(self).alive ==> final(self).event_count == old(self).event_count + 1,
            old(self).alive && !shocked ==> final(self).personality@ == old(self).personality@,
            old(self).alive && shocked ==> trait_texts(final(self).personality@) == keep_recent(
                trait_texts(old(self).personality@).push(
                    shock_trait(old(self).name@, (old(self).event_count + 1) as nat),
                ),
            ),
    {
        if !self.alive {
            return;
        }
        self.event_count = self.event_count + 1;
        if shocked {
            let label = shock_trait_text(self.name.as_str(), self.event_count);
            let ghost before = trait_texts(self.personality@);
            self.personality.push(label);
            if self.personality.len() > MAX_TRAITS {
                self.personality.remove(0);
            }
            proof {
                let pushed = before.push(shock_trait(self.name@, self.event_count as nat));
                assert(trait_texts(self.personality@) =~= keep_recent(pushed));
            }
        }
    }
}

} // verus!
