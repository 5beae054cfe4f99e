//! The analysis passes, what each of them reads, and where their results are
//! kept.
//!
//! Every pass has a slot with two handles.  `current` holds the result while
//! it is valid, that is while no segment has changed since it was computed.
//! `previous` keeps the last result across a change of the segments, so that
//! the next run of the pass can start from it and update it in place.

use vstd::prelude::*;
use std::sync::Arc;

verus! {

/// An analysis pass.
#[derive(Copy, Clone, Debug, PartialEq, Eq, Hash, Structural)]
pub enum Pass {
    Nameck,
    Scopeck,
    Verify,
    Outline,
    Grammar,
    StmtParse,
}

impl Pass {
    /// The passes whose results a pass reads, besides the segments, in the
    /// order in which they are asked for.
    pub open spec fn inputs(self) -> Seq<Pass> {
        match self {
            Pass::Nameck => seq![],
            Pass::Scopeck => seq![Pass::Nameck],
            Pass::Verify => seq![Pass::Nameck, Pass::Scopeck],
            Pass::Outline => seq![],
            Pass::Grammar => seq![Pass::Nameck, Pass::Scopeck],
            Pass::StmtParse => seq![Pass::Nameck, Pass::Grammar],
        }
    }

    /// `self` has to be computed before `other` can be: it is an input of
    /// `other`, or an input of an input, and so on.
    pub open spec fn feeds(self, other: Pass) -> bool {
        match other {
            Pass::Nameck => false,
            Pass::Scopeck => self == Pass::Nameck,
            Pass::Verify => self == Pass::Nameck || self == Pass::Scopeck,
            Pass::Outline => false,
            Pass::Grammar => self == Pass::Nameck || self == Pass::Scopeck,
            Pass::StmtParse => self == Pass::Nameck || self == Pass::Scopeck || self
                == Pass::Grammar,
        }
    }

    /// A number for each pass that is smaller than that of every pass it
    /// feeds.
    pub open spec fn rank(self) -> nat {
        match self {
            Pass::Nameck => 0,
            Pass::Scopeck => 1,
            Pass::Verify => 2,
            Pass::Outline => 3,
            Pass::Grammar => 4,
            Pass::StmtParse => 5,
        }
    }

    /// The position of the pass's slot.
    pub fn index(self) -> (i: usize)
        ensures
            i == self.rank(),
            i < 6,
    {
        match self {
            Pass::Nameck => 0,
            Pass::Scopeck => 1,
            Pass::Verify => 2,
            Pass::Outline => 3,
            Pass::Grammar => 4,
            Pass::StmtParse => 5,
        }
    }

    /// The passes whose results the pass reads.
    pub fn prerequisites(self) -> (list: Vec<Pass>)
        ensures
            list@ == self.inputs(),
    {
        let mut list: Vec<Pass> = Vec::new();
        match self {
            Pass::Nameck => {},
            Pass::Scopeck => {
                list.push(Pass::Nameck);
            },
            Pass::Verify => {
                list.push(Pass::Nameck);
                list.push(Pass::Scopeck);
            },
            Pass::Outline => {},
            Pass::Grammar => {
                list.push(Pass::Nameck);
                list.push(Pass::Scopeck);
            },
            Pass::StmtParse => {
                list.push(Pass::Nameck);
                list.push(Pass::Grammar);
            },
        }
        assert(list@ =~= self.inputs());
        list
    }
}

/// The dependency graph has no cycle, and `feeds` is its reachability: a pass
/// feeds another exactly if it is one of its inputs or feeds one of them.
pub proof fn lemma_dependencies(a: Pass, b: Pass)
    ensures
        a.feeds(b) ==> a.rank() < b.rank(),
        a.feeds(b) <==> exists|k: int|
            0 <= k < b.inputs().len() && (a == #[trigger] b.inputs()[k] || a.feeds(b.inputs()[k])),
{
    if a.feeds(b) {
        match b {
            Pass::Scopeck => {
                assert(a == b.inputs()[0]);
            },
            Pass::Verify | Pass::Grammar => {
                if a == Pass::Nameck {
                    assert(a == b.inputs()[0]);
                } else {
                    assert(a == b.inputs()[1]);
                }
            },
            Pass::StmtParse => {
                if a == Pass::Nameck {
                    assert(a == b.inputs()[0]);
                } else if a == Pass::Grammar {
                    assert(a == b.inputs()[1]);
                } else {
                    assert(a.feeds(b.inputs()[1]));
                }
            },
            _ => {},
        }
    }
}

/// Another handle for the value that `handle` shares.
///
/// Wraps `Arc::clone`: the new handle points to the same value.
#[verifier::external_body]
pub(crate) fn share<T>(handle: &Arc<T>) -> (copy: Arc<T>)
    ensures
        copy == *handle,
{
    handle.clone()
}

/// The value behind `handle`, if no other handle shares it; else the handle
/// back.
///
/// Wraps `Arc::try_unwrap`: the value that comes out, or the handle that
/// comes back, is the one that went in.
#[verifier::external_body]
pub(crate) fn try_unwrap<T>(handle: Arc<T>) -> (r: Result<T, Arc<T>>)
    ensures
        match r {
            Ok(value) => value == *handle,
            Err(back) => back == handle,
        },
{
    Arc::try_unwrap(handle)
}

/// The result slot of a pass.
pub struct PassResult<T> {
    current: Option<Arc<T>>,
    previous: Option<Arc<T>>,
}

/// The values behind the two handles of a slot.
pub struct SlotView<T> {
    pub current: Option<T>,
    pub previous: Option<T>,
}

/// `table` can be what a pass starts from when its last result was `last`:
/// nothing where there was none; else that result itself, or a copy of it
/// where the result was shared and must not be changed.
pub open spec fn starts_from<T: Clone>(last: Option<T>, table: Option<T>) -> bool {
    match last {
        None => table is None,
        Some(shared) => table matches Some(own) && (own == shared || cloned::<T>(shared, own)),
    }
}

impl<T> PassResult<T> {
    /// The values behind the handles.
    pub closed spec fn view(&self) -> SlotView<T> {
        SlotView {
            current: match self.current {
                Some(handle) => Some(*handle),
                None => None,
            },
            previous: match self.previous {
                Some(handle) => Some(*handle),
                None => None,
            },
        }
    }

    /// A slot that holds nothing.
    pub fn new() -> (slot: Self)
        ensures
            slot@.current is None,
            slot@.previous is None,
    {
        PassResult { current: None, previous: None }
    }

    /// The segments have changed: the result is no longer valid.  What the
    /// pass computed last is kept for its next run.
    pub fn invalidate(&mut self)
        ensures
            final(self)@.current is None,
            final(self)@.previous == old(self)@.previous,
    {
        self.current = None;
    }

    /// The valid result, if there is one.
    pub fn current(&self) -> (handle: Option<&Arc<T>>)
        ensures
            match handle {
                Some(h) => self@.current == Some(**h),
                None => self@.current is None,
            },
    {
        self.current.as_ref()
    }

    /// Takes out what the pass is to start from: nothing on its first run,
    /// else its last result.  Where another database shares that result, a
    /// copy is taken and the shared one stays as it is.
    pub fn take_previous(&mut self) -> (table: Option<T>) where T: Clone
        ensures
            starts_from(old(self)@.previous, table),
            final(self)@.previous is None,
            final(self)@.current == old(self)@.current,
    {
        match self.previous.take() {
            None => None,
            Some(handle) => match try_unwrap(handle) {
                Ok(own) => Some(own),
                Err(shared) => Some((*shared).clone()),
            },
        }
    }

    /// The pass has run to its end: `table` is its valid result, and what its
    /// next run will start from.
    pub fn complete(&mut self, table: T) -> (handle: &Arc<T>)
        ensures
            final(self)@.current == Some(table),
            final(self)@.previous == Some(table),
            **handle == table,
    {
        let handle = Arc::new(table);
        self.previous = Some(share(&handle));
        self.current = Some(handle);
        self.current.as_ref().unwrap()
    }

    /// The pass was given up: the slot holds nothing.
    pub fn abandon(&mut self)
        ensures
            final(self)@.current is None,
            final(self)@.previous is None,
    {
        self.current = None;
        self.previous = None;
    }

    /// A slot that shares both results with this one.
    pub fn duplicate(&self) -> (copy: Self)
        ensures
            copy@ == self@,
    {
        let current = match &self.current {
            Some(handle) => Some(share(handle)),
            None => None,
        };
        let previous = match &self.previous {
            Some(handle) => Some(share(handle)),
            None => None,
        };
        PassResult { current, previous }
    }
}

} // verus!
