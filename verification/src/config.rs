use vstd::prelude::*;
use vstd::string::StrSliceExecFns;

verus! {

/// Whether every character of `s` is a decimal digit.
pub open spec fn all_digits(s: Seq<char>) -> bool {
    forall|i: int| 0 <= i < s.len() ==> 48 <= (#[trigger] s[i]) as int <= 57
}

/// The number a digit string denotes.
pub open spec fn decimal_value(s: Seq<char>) -> int
    decreases s.len(),
{
    if s.len() == 0 {
        0
    } else {
        decimal_value(s.drop_last()) * 10 + (s.last() as int - 48)
    }
}

/// Parses a decimal `usize`: the digits' value when `s` is a nonempty digit
/// string whose value fits, and nothing otherwise.
pub fn parse_usize(s: &str) -> (r: Option<usize>)
    ensures
        match r {
            Some(n) => s@.len() > 0 && all_digits(s@) && n as int == decimal_value(s@),
            None => s@.len() == 0 || !all_digits(s@) || decimal_value(s@) > usize::MAX as int,
        },
{
    let n = s.unicode_len();
    if n == 0 {
        return None;
    }
    let mut acc: usize = 0;
    let mut i: usize = 0;
    while i < n
        invariant
            0 <= i <= n,
            n == s@.len(),
            acc as int == decimal_value(s@.take(i as int)),
            forall|x: int| 0 <= x < i ==> 48 <= (#[trigger] s@[x]) as int <= 57,
        decreases n - i,
    {
        proof {
            assert(s@.take(i as int + 1).drop_last() =~= s@.take(i as int));
            assert(s@.take(i as int + 1).last() == s@[i as int]);
        }
        let c = s.get_char(i);
        let v = c as u32;
        if v < 48 || v > 57 {
            proof {
                assert(!all_digits(s@));
            }
            return None;
        }
        let digit = (v - 48) as usize;
        let next = match acc.checked_mul(10) {
            Some(t) => t,
            None => {
                proof {
                    if all_digits(s@) {
                        lemma_decimal_prefix_le(s@, i as int + 1);
                    }
                }
                return None;
            },
        };
        let next = match next.checked_add(digit) {
            Some(t) => t,
            None => {
                proof {
                    if all_digits(s@) {
                        lemma_decimal_prefix_le(s@, i as int + 1);
                    }
                }
                return None;
            },
        };
        acc = next;
        i += 1;
    }
    proof {
        assert(s@.take(n as int) =~= s@);
    }
    Some(acc)
}

/// A digit string's value only grows as it gets longer.
proof fn lemma_decimal_prefix_le(s: Seq<char>, i: int)
    requires
        0 <= i <= s.len(),
        forall|x: int| 0 <= x < s.len() ==> 48 <= (#[trigger] s[x]) as int <= 57,
    ensures
        decimal_value(s.take(i)) <= decimal_value(s),
    decreases s.len() - i,
{
    if i < s.len() {
        lemma_decimal_prefix_le(s, i + 1);
        assert(s.take(i + 1).drop_last() =~= s.take(i));
        assert(s.take(i + 1).last() == s[i]);
        lemma_decimal_nonneg(s.take(i));
        assert(decimal_value(s.take(i)) <= decimal_value(s.take(i + 1)));
    } else {
        assert(s.take(i) =~= s);
    }
}

proof fn lemma_decimal_nonneg(s: Seq<char>)
    requires
        forall|x: int| 0 <= x < s.len() ==> 48 <= (#[trigger] s[x]) as int <= 57,
    ensures
        decimal_value(s) >= 0,
    decreases s.len(),
{
    if s.len() > 0 {
        lemma_decimal_nonneg(s.drop_last());
    }
}

/// The first value stored under `key`, if any.
pub open spec fn lookup(entries: Seq<(Seq<char>, Seq<char>)>, key: Seq<char>) -> Option<Seq<char>>
    decreases entries.len(),
{
    if entries.len() == 0 {
        Option::None
    } else if entries[0].0 == key {
        Option::Some(entries[0].1)
    } else {
        lookup(entries.drop_first(), key)
    }
}

proof fn lemma_lookup_at(entries: Seq<(Seq<char>, Seq<char>)>, key: Seq<char>, i: int)
    requires
        0 <= i < entries.len(),
        entries[i].0 == key,
        forall|x: int| 0 <= x < i ==> (#[trigger] entries[x]).0 != key,
    ensures
        lookup(entries, key) == Option::Some(entries[i].1),
    decreases i,
{
    if i > 0 {
        lemma_lookup_at(entries.drop_first(), key, i - 1);
    }
}

proof fn lemma_lookup_none(entries: Seq<(Seq<char>, Seq<char>)>, key: Seq<char>)
    requires
        forall|x: int| 0 <= x < entries.len() ==> (#[trigger] entries[x]).0 != key,
    ensures
        lookup(entries, key) is None,
    decreases entries.len(),
{
    if entries.len() > 0 {
        lemma_lookup_none(entries.drop_first(), key);
    }
}

/// A session's configuration: string settings handed through to planning.
/// Unknown keys are preserved.
pub struct SessionConfig {
    pub settings: Vec<(String, String)>,
}

impl View for SessionConfig {
    type V = Seq<(Seq<char>, Seq<char>)>;

    open spec fn view(&self) -> Seq<(Seq<char>, Seq<char>)> {
        Seq::new(self.settings@.len(), |i: int| (self.settings@[i].0@, self.settings@[i].1@))
    }
}

impl SessionConfig {
    /// A configuration with no settings: every lookup falls back to the
    /// caller's default.
    pub fn new() -> (r: Self)
        ensures
            r@.len() == 0,
    {
        let r = SessionConfig { settings: Vec::new() };
        proof {
            assert(r@ =~= Seq::<(Seq<char>, Seq<char>)>::empty());
        }
        r
    }

    /// Appends a setting; an earlier entry for the same key keeps priority,
    /// so `set` on a fresh key defines it and is otherwise a no-op for
    /// `get`.
    pub fn set(&mut self, key: String, value: String)
        ensures
            final(self)@ == old(self)@.push((key@, value@)),
    {
        self.settings.push((key, value));
        proof {
            let pushed = final(self).settings@.last();
            assert(final(self)@ =~= old(self)@.push((pushed.0@, pushed.1@)));
        }
    }

    /// The first value stored under `key`, if any.
    pub fn get(&self, key: &String) -> (r: Option<&String>)
        ensures
            match r {
                Some(v) => lookup(self@, key@) == Option::Some(v@),
                None => lookup(self@, key@) is None,
            },
    {
        let mut i: usize = 0;
        while i < self.settings.len()
            invariant
                0 <= i <= self.settings.len(),
                forall|x: int| 0 <= x < i ==> (#[trigger] self@[x]).0 != key@,
            decreases self.settings.len() - i,
        {
            if self.settings[i].0 == *key {
                proof {
                    assert((#[trigger] self@[i as int]).0 == key@);
                    lemma_lookup_at(self@, key@, i as int);
                }
                return Some(&self.settings[i].1);
            }
            i += 1;
        }
        proof {
            lemma_lookup_none(self@, key@);
        }
        None
    }

    /// The configured default shuffle partition count for physical
    /// planning, or `fallback` when the key is absent or not a number.
    pub fn shuffle_partitions(&self, fallback: usize) -> (r: usize)
        ensures
            ({
                let stored = lookup(self@, "ballista.shuffle.partitions"@);
                match stored {
                    Option::Some(v) => (all_digits(v) && v.len() > 0 && decimal_value(v)
                        <= usize::MAX as int ==> r as int == decimal_value(v)) && (!(all_digits(v)
                        && v.len() > 0 && decimal_value(v) <= usize::MAX as int) ==> r
                        == fallback),
                    Option::None => r == fallback,
                }
            }),
    {
        let key = "ballista.shuffle.partitions".to_owned();
        match self.get(&key) {
            Some(value) => match parse_usize(value.as_str()) {
                Some(n) => n,
                None => fallback,
            },
            None => fallback,
        }
    }
}

} // verus!
