//! The clipboard provider: yields a secret's property values to paste
//! requests in order, debouncing repeated reads. Some requestors issue up
//! to four reads for one paste, so reads within 200 milliseconds of the
//! previous one return the same value again without advancing; a first read
//! shortly after startup is treated as a duplicate of itself the same way.

use vstd::prelude::*;

verus! {

/// Reads this close (in milliseconds) to the previous one belong to the
/// same paste gesture.
pub const DEBOUNCE_MILLIS: u64 = 200;

/// Overwrite a string with zeros and empty it.
///
/// Relies on zeroize::Zeroize for String: every byte is overwritten with
/// zero through a volatile write that the compiler will not elide, and the
/// string is cleared.
#[verifier::external_body]
fn wipe_string(s: &mut String)
    ensures
        final(s)@.len() == 0,
{
    zeroize::Zeroize::zeroize(s);
}

/// The value returned by the previous read, with its time and whether it
/// was the cold-start read.
pub struct LastSelection {
    pub content: String,
    pub timestamp: u64,
    pub initial: bool,
}

#[verifier::ext_equal]
pub ghost struct LastSelectionView {
    pub content: Seq<char>,
    pub timestamp: u64,
    pub initial: bool,
}

impl View for LastSelection {
    type V = LastSelectionView;

    open spec fn view(&self) -> LastSelectionView {
        LastSelectionView {
            content: self.content@,
            timestamp: self.timestamp,
            initial: self.initial,
        }
    }
}

/// The debounced selection provider.
pub struct SelectionDebounce {
    name: String,
    values: Vec<String>,
    pos: usize,
    last: Option<LastSelection>,
    startup: u64,
    done: bool,
}

#[verifier::ext_equal]
pub ghost struct SelectionDebounceView {
    pub name: Seq<char>,
    pub values: Seq<Seq<char>>,
    pub pos: int,
    pub last: Option<LastSelectionView>,
    pub startup: u64,
    pub done: bool,
}

impl View for SelectionDebounce {
    type V = SelectionDebounceView;

    closed spec fn view(&self) -> SelectionDebounceView {
        SelectionDebounceView {
            name: self.name@,
            values: crate::api::str_seq_view(self.values@),
            pos: self.pos as int,
            last: match self.last {
                Some(ref l) => Some(l@),
                None => None,
            },
            startup: self.startup,
            done: self.done,
        }
    }
}

/// The reads within `DEBOUNCE_MILLIS` of `since` are duplicates.
pub open spec fn spec_debounced(since: u64, now: u64) -> bool {
    since <= now < since + DEBOUNCE_MILLIS
}

/// One step of the provider: what the next read returns and the state it
/// leaves behind.
pub open spec fn spec_advance(v: SelectionDebounceView, now: u64) -> (
    SelectionDebounceView,
    Option<Seq<char>>,
) {
    if !v.done && v.pos < v.values.len() {
        (
            SelectionDebounceView {
                pos: v.pos + 1,
                last: Some(
                    LastSelectionView {
                        content: v.values[v.pos],
                        timestamp: now,
                        initial: spec_debounced(v.startup, now),
                    },
                ),
                ..v
            },
            Some(v.values[v.pos]),
        )
    } else {
        (SelectionDebounceView { last: None, done: true, ..v }, None)
    }
}

pub open spec fn spec_get_selection(v: SelectionDebounceView, now: u64) -> (
    SelectionDebounceView,
    Option<Seq<char>>,
) {
    match v.last {
        Some(l) => {
            if l.initial {
                (
                    SelectionDebounceView {
                        last: Some(
                            LastSelectionView {
                                content: l.content,
                                timestamp: now,
                                initial: false,
                            },
                        ),
                        ..v
                    },
                    Some(l.content),
                )
            } else if spec_debounced(l.timestamp, now) {
                (v, Some(l.content))
            } else {
                spec_advance(v, now)
            }
        },
        None => spec_advance(v, now),
    }
}

impl SelectionDebounce {
    /// A provider over the given property values, started `now`.
    pub fn new(name: String, values: Vec<String>, now: u64) -> (r: SelectionDebounce)
        ensures
            r@.name == name@,
            r@.values == crate::api::str_seq_view(values@),
            r@.pos == 0,
            r@.last is None,
            r@.startup == now,
            !r@.done,
    {
        SelectionDebounce { name, values, pos: 0, last: None, startup: now, done: false }
    }

    /// The display name of what is being provided, while open.
    pub fn current_selection_name(&self) -> (r: Option<String>)
        ensures
            r is Some <==> !self@.done,
            r matches Some(n) ==> n@ == self@.name,
    {
        if self.done {
            None
        } else {
            Some(self.name.clone())
        }
    }

    /// Answer one paste request: the next value in order, or the previous
    /// one again when the read is debounced; `None` once exhausted.
    pub fn get_selection(&mut self, now: u64) -> (r: Option<String>)
        ensures
            final(self)@ == spec_get_selection(old(self)@, now).0,
            (r is Some <==> spec_get_selection(old(self)@, now).1 is Some),
            r matches Some(s) ==> Some(s@) == spec_get_selection(old(self)@, now).1,
    {
        match &self.last {
            Some(l) => {
                if l.initial {
                    let content = l.content.clone();
                    let ts_init = LastSelection { content: l.content.clone(), timestamp: now, initial: false };
                    self.last = Some(ts_init);
                    proof {
                        assert(final(self)@ =~= spec_get_selection(old(self)@, now).0);
                    }
                    return Some(content);
                }
                if l.timestamp <= now && now - l.timestamp < DEBOUNCE_MILLIS {
                    let content = l.content.clone();
                    proof {
                        assert(final(self)@ =~= spec_get_selection(old(self)@, now).0);
                    }
                    return Some(content);
                }
            },
            None => {},
        }
        if !self.done && self.pos < self.values.len() {
            let content = self.values[self.pos].clone();
            let initial = self.startup <= now && now - self.startup < DEBOUNCE_MILLIS;
            self.last = Some(
                LastSelection { content: self.values[self.pos].clone(), timestamp: now, initial },
            );
            self.pos = self.pos + 1;
            proof {
                assert(final(self)@ =~= spec_get_selection(old(self)@, now).0);
            }
            return Some(content);
        }
        match &mut self.last {
            Some(l) => {
                wipe_string(&mut l.content);
            },
            None => {},
        }
        self.last = None;
        self.done = true;
        proof {
            assert(final(self)@ =~= spec_get_selection(old(self)@, now).0);
        }
        None
    }

    /// The provider has finished: every value was delivered, or it was
    /// destroyed.
    pub fn is_done(&self) -> (r: bool)
        ensures
            r == self@.done,
    {
        self.done
    }

    /// Wipe the held values and force `Done`.
    pub fn destroy(&mut self)
        ensures
            final(self)@.done,
            final(self)@.last is None,
            final(self)@.pos == old(self)@.pos,
            final(self)@.values.len() == old(self)@.values.len(),
            forall|i: int|
                0 <= i < final(self)@.values.len() ==> (#[trigger] final(self)@.values[i]).len()
                    == 0,
    {
        let mut wiped: Vec<String> = Vec::new();
        while self.values.len() > 0
            invariant
                self@.pos == old(self)@.pos,
                self@.done == old(self)@.done,
                self@.last == old(self)@.last,
                wiped@.len() + self.values@.len() == old(self)@.values.len(),
                forall|j: int| 0 <= j < wiped@.len() ==> (#[trigger] wiped@[j])@.len() == 0,
            decreases self.values@.len(),
        {
            let mut v = self.values.remove(0);
            wipe_string(&mut v);
            wiped.push(v);
        }
        self.values = wiped;
        proof {
            assert forall|i: int| 0 <= i < self@.values.len() implies (
            #[trigger] self@.values[i]).len() == 0 by {
                assert(self@.values[i] == self.values@[i]@);
            }
        }
        match &mut self.last {
            Some(l) => {
                wipe_string(&mut l.content);
            },
            None => {},
        }
        self.last = None;
        self.done = true;
    }
}

impl Drop for SelectionDebounce {
    /// Relies on zeroize::Zeroize for Vec<String> and String: every held
    /// value and the last-returned value are overwritten with zeros before
    /// the provider's memory is returned to the allocator.
    #[verifier::external_body]
    fn drop(&mut self)
        opens_invariants none
        no_unwind
    {
        zeroize::Zeroize::zeroize(&mut self.values);
        if let Some(l) = &mut self.last {
            zeroize::Zeroize::zeroize(&mut l.content);
        }
    }
}

/// A second read within the debounce window returns the value of the first
/// again and does not advance the position; a later read advances to the
/// next value.
pub proof fn lemma_debounce_window(v: SelectionDebounceView, t1: u64, t2: u64)
    requires
        v.last is None,
        !v.done,
        0 <= v.pos < v.values.len(),
        !spec_debounced(v.startup, t1),
        t1 <= t2,
    ensures
        ({
            let (v1, r1) = spec_get_selection(v, t1);
            let (v2, r2) = spec_get_selection(v1, t2);
            &&& (spec_debounced(t1, t2) ==> r2 == r1 && v2.pos == v1.pos)
            &&& (!spec_debounced(t1, t2) && v1.pos < v1.values.len() ==> r2 == Some(
                v1.values[v1.pos],
            ) && v2.pos == v1.pos + 1)
        }),
{
}

} // verus!
