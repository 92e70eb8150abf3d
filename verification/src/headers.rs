//! Header sets.
//!
//! A `HeaderSet` is a multi-valued mapping from header name to header value
//! with append semantics, built once by the host and consumed by exactly one
//! request. Names are validated and canonicalized (lowercased) and values
//! validated through the HTTP types of the transport crate, so a set handed
//! to the transport at dispatch time is always accepted there.

use crate::pool::PoolValue;
use std::str::FromStr;
use vstd::prelude::*;

verus! {

broadcast use vstd::std_specs::vec::group_vec_axioms;

/// The canonical (lowercased) form of a header name, or `None` when the text
/// is not a legal HTTP header name.
pub uninterp spec fn header_name_canon(s: Seq<char>) -> Option<Seq<char>>;

/// One character of a legal HTTP header value: visible characters and
/// spaces (code 32 and up, except delete), plus horizontal tab.
pub open spec fn is_header_value_char(c: char) -> bool {
    c == '\t' || ((c as u32) >= 32 && (c as u32) != 127)
}

/// Whether the text is a legal HTTP header value.
pub open spec fn valid_header_value(s: Seq<char>) -> bool {
    forall|i: int| 0 <= i < s.len() ==> is_header_value_char(#[trigger] s[i])
}

/// Relies on `reqwest::header::HeaderName::from_str` (and `as_str`): whether
/// a name parses is a function of its text alone; a parsed name renders back
/// as its canonical lowercase form, and parsing that form again returns it
/// unchanged (header names are case-insensitive).
#[verifier::external_body]
fn canonical_header_name(s: &str) -> (r: Option<String>)
    ensures
        match r {
            Some(name) => header_name_canon(s@) == Some(name@) && header_name_canon(name@)
                == Some(name@),
            None => header_name_canon(s@) is None,
        },
{
    match reqwest::header::HeaderName::from_str(s) {
        Ok(name) => Some(name.as_str().to_string()),
        Err(_) => None,
    }
}

/// Relies on `reqwest::header::HeaderValue::from_str`: it accepts exactly
/// the texts whose bytes are 32 and up (delete excluded) or horizontal tab.
/// Characters above 0x7F encode to bytes 0x80 and up, which that check
/// accepts, so at the character level it is `valid_header_value`.
#[verifier::external_body]
fn header_value_ok(s: &str) -> (r: bool)
    ensures
        r == valid_header_value(s@),
{
    reqwest::header::HeaderValue::from_str(s).is_ok()
}

/// An ordered multi-valued header mapping. Every entry holds a canonical
/// name and a validated value.
pub struct HeaderSet {
    pub entries: Vec<(String, String)>,
}

impl View for HeaderSet {
    type V = Seq<(Seq<char>, Seq<char>)>;

    open spec fn view(&self) -> Seq<(Seq<char>, Seq<char>)> {
        Seq::new(self.entries@.len(), |i: int| (self.entries@[i].0@, self.entries@[i].1@))
    }
}

impl HeaderSet {
    /// Every entry carries a canonical name and a legal value.
    pub open spec fn wf(self) -> bool {
        forall|i: int|
            0 <= i < self@.len() ==> header_name_canon(#[trigger] self@[i].0) == Some(self@[i].0)
                && valid_header_value(self@[i].1)
    }

    /// Whether some entry carries `name`.
    pub open spec fn spec_has_name(entries: Seq<(Seq<char>, Seq<char>)>, name: Seq<char>) -> bool {
        exists|i: int| 0 <= i < entries.len() && (#[trigger] entries[i].0) == name
    }

    pub fn new() -> (r: HeaderSet)
        ensures
            r.wf(),
            r@ == Seq::<(Seq<char>, Seq<char>)>::empty(),
    {
        let r = HeaderSet { entries: Vec::new() };
        proof {
            assert(r@ =~= Seq::<(Seq<char>, Seq<char>)>::empty());
        }
        r
    }

    /// Validates and appends one `name: value` entry; the name is stored in
    /// canonical form. Fails, changing nothing, exactly when the name or the
    /// value is not legal HTTP header text.
    pub fn append(&mut self, name: &str, value: String) -> (ok: bool)
        requires
            old(self).wf(),
        ensures
            final(self).wf(),
            ok == (header_name_canon(name@) is Some && valid_header_value(value@)),
            if ok {
                final(self)@ == old(self)@.push((header_name_canon(name@)->0, value@))
            } else {
                final(self)@ == old(self)@
            },
    {
        let canon = match canonical_header_name(name) {
            Some(c) => c,
            None => {
                return false;
            },
        };
        if !header_value_ok(value.as_str()) {
            return false;
        }
        let ghost before = self@;
        self.entries.push((canon, value));
        proof {
            assert(self@ =~= before.push((header_name_canon(name@)->0, value@)));
        }
        true
    }

    /// Removes every entry named `name` (given in canonical form), then
    /// appends `name: value`: the single-valued insert used for headers the
    /// dispatcher itself owns. Fails, changing nothing, when the name is not
    /// canonical or the value is not legal.
    #[verifier::loop_isolation(false)]
    pub fn set(&mut self, name: &str, value: String) -> (ok: bool)
        requires
            old(self).wf(),
        ensures
            final(self).wf(),
            ok == (header_name_canon(name@) == Some(name@) && valid_header_value(value@)),
            if ok {
                final(self)@ == old(self)@.filter(|e: (Seq<char>, Seq<char>)| e.0 != name@).push(
                    (name@, value@),
                )
            } else {
                final(self)@ == old(self)@
            },
    {
        let name_owned = name.to_owned();
        let canon = match canonical_header_name(name) {
            Some(c) => c,
            None => {
                return false;
            },
        };
        if !(canon == name_owned) {
            return false;
        }
        if !header_value_ok(value.as_str()) {
            return false;
        }
        let mut kept: Vec<(String, String)> = Vec::new();
        let mut i: usize = 0;
        let ghost pred = |e: (Seq<char>, Seq<char>)| e.0 != name@;
        while i < self.entries.len()
            invariant
                i <= self.entries.len(),
                Seq::new(kept@.len(), |k: int| (kept@[k].0@, kept@[k].1@)) =~= self@.take(
                    i as int,
                ).filter(pred),
                forall|k: int|
                    0 <= k < kept@.len() ==> header_name_canon((#[trigger] kept@[k]).0@) == Some(
                        kept@[k].0@,
                    ) && valid_header_value(kept@[k].1@),
            decreases self.entries.len() - i,
        {
            proof {
                assert(self@.take(i + 1).drop_last() =~= self@.take(i as int));
                reveal_with_fuel(Seq::filter, 2);
            }
            let keep = !(self.entries[i].0 == name_owned);
            if keep {
                let entry_name = self.entries[i].0.clone();
                let entry_value = self.entries[i].1.clone();
                kept.push((entry_name, entry_value));
            }
            proof {
                assert(self@.take(i + 1).last() == self@[i as int]);
                assert(Seq::new(kept@.len(), |k: int| (kept@[k].0@, kept@[k].1@)) =~= self@.take(
                    i + 1,
                ).filter(pred));
            }
            i = i + 1;
        }
        kept.push((canon, value));
        self.entries = kept;
        proof {
            assert(old(self)@.take(old(self)@.len() as int) =~= old(self)@);
            assert(self@ =~= old(self)@.filter(pred).push((name@, value@)));
        }
        true
    }

    /// The number of entries.
    pub fn len(&self) -> (n: usize)
        ensures
            n == self@.len(),
    {
        self.entries.len()
    }

    /// The entry at `index`, when it exists.
    pub fn entry_at(&self, index: usize) -> (r: Option<(&String, &String)>)
        ensures
            match r {
                Some(e) => index < self@.len() && e.0@ == self@[index as int].0 && e.1@
                    == self@[index as int].1,
                None => index >= self@.len(),
            },
    {
        if index < self.entries.len() {
            Some((&self.entries[index].0, &self.entries[index].1))
        } else {
            None
        }
    }

    /// Merges this base set with `over`: base entries whose name `over` also
    /// carries are dropped, every entry of `over` is kept, so per-request
    /// headers win on conflicting names.
    #[verifier::loop_isolation(false)]
    pub fn merge(&self, over: &HeaderSet) -> (r: HeaderSet)
        requires
            self.wf(),
            over.wf(),
        ensures
            r.wf(),
            r@ == self@.filter(
                |e: (Seq<char>, Seq<char>)| !HeaderSet::spec_has_name(over@, e.0),
            ) + over@,
    {
        let ghost pred = |e: (Seq<char>, Seq<char>)| !HeaderSet::spec_has_name(over@, e.0);
        let mut out: Vec<(String, String)> = Vec::new();
        let mut i: usize = 0;
        while i < self.entries.len()
            invariant
                i <= self.entries.len(),
                Seq::new(out@.len(), |k: int| (out@[k].0@, out@[k].1@)) =~= self@.take(
                    i as int,
                ).filter(pred),
                forall|k: int|
                    0 <= k < out@.len() ==> header_name_canon((#[trigger] out@[k]).0@) == Some(
                        out@[k].0@,
                    ) && valid_header_value(out@[k].1@),
            decreases self.entries.len() - i,
        {
            proof {
                assert(self@.take(i + 1).drop_last() =~= self@.take(i as int));
                reveal_with_fuel(Seq::filter, 2);
            }
            let mut found = false;
            let mut j: usize = 0;
            while j < over.entries.len()
                invariant
                    j <= over.entries.len(),
                    found == exists|m: int|
                        0 <= m < j && (#[trigger] over@[m].0) == self@[i as int].0,
                decreases over.entries.len() - j,
            {
                proof {
                    assert(over@[j as int].0 == over.entries@[j as int].0@);
                    assert(self@[i as int].0 == self.entries@[i as int].0@);
                }
                if over.entries[j].0 == self.entries[i].0 {
                    found = true;
                }
                j = j + 1;
            }
            if !found {
                let entry_name = self.entries[i].0.clone();
                let entry_value = self.entries[i].1.clone();
                out.push((entry_name, entry_value));
            }
            proof {
                assert(found == HeaderSet::spec_has_name(over@, self@[i as int].0));
                assert(self@.take(i + 1).last() == self@[i as int]);
                assert(Seq::new(out@.len(), |k: int| (out@[k].0@, out@[k].1@)) =~= self@.take(
                    i + 1,
                ).filter(pred));
            }
            i = i + 1;
        }
        proof {
            assert(self@.take(self.entries@.len() as int) =~= self@);
            assert(Seq::new(out@.len(), |k: int| (out@[k].0@, out@[k].1@)) =~= self@.filter(pred)
                + over@.take(0));
        }
        let mut j: usize = 0;
        while j < over.entries.len()
            invariant
                j <= over.entries.len(),
                Seq::new(out@.len(), |k: int| (out@[k].0@, out@[k].1@)) =~= self@.filter(pred)
                    + over@.take(j as int),
                forall|k: int|
                    0 <= k < out@.len() ==> header_name_canon((#[trigger] out@[k]).0@) == Some(
                        out@[k].0@,
                    ) && valid_header_value(out@[k].1@),
            decreases over.entries.len() - j,
        {
            let ghost prev = Seq::new(out@.len(), |k: int| (out@[k].0@, out@[k].1@));
            let entry_name = over.entries[j].0.clone();
            let entry_value = over.entries[j].1.clone();
            out.push((entry_name, entry_value));
            proof {
                let fl = self@.filter(pred);
                assert(over@[j as int] == (over.entries@[j as int].0@, over.entries@[j as int].1@));
                assert(header_name_canon(over@[j as int].0) == Some(over@[j as int].0)
                    && valid_header_value(over@[j as int].1));
                assert forall|k: int|
                    0 <= k < out@.len() implies (out@[k].0@, out@[k].1@) == (fl + over@.take(
                    j + 1,
                ))[k] by {
                    if k < out@.len() - 1 {
                        assert((out@[k].0@, out@[k].1@) == prev[k]);
                        assert(prev[k] == (fl + over@.take(j as int))[k]);
                        if k >= fl.len() {
                            assert(over@.take(j as int)[k - fl.len()] == over@[k - fl.len()]);
                            assert(over@.take(j + 1)[k - fl.len()] == over@[k - fl.len()]);
                        }
                    } else {
                        assert(out@[k] == (entry_name, entry_value));
                        assert(over@.take(j + 1)[k - fl.len()] == over@[j as int]);
                    }
                }
                assert(Seq::new(out@.len(), |k: int| (out@[k].0@, out@[k].1@)) =~= fl + over@.take(
                    j + 1,
                ));
            }
            j = j + 1;
        }
        let r = HeaderSet { entries: out };
        proof {
            assert(over@.take(over@.len() as int) =~= over@);
            assert(r@ =~= self@.filter(pred) + over@);
        }
        r
    }
}

impl PoolValue for HeaderSet {
    fn duplicate(&self) -> (r: Self)
        ensures
            r@ == self@,
    {
        let mut entries: Vec<(String, String)> = Vec::new();
        let mut i: usize = 0;
        while i < self.entries.len()
            invariant
                i <= self.entries@.len(),
                entries@.len() == i as int,
                forall|j: int|
                    0 <= j < i ==> (#[trigger] entries@[j]).0@ == self.entries@[j].0@
                        && entries@[j].1@ == self.entries@[j].1@,
            decreases self.entries.len() - i,
        {
            let entry_name = self.entries[i].0.clone();
            let entry_value = self.entries[i].1.clone();
            entries.push((entry_name, entry_value));
            i = i + 1;
        }
        let r = HeaderSet { entries };
        proof {
            assert(r@ =~= self@);
        }
        r
    }
}

} // verus!
