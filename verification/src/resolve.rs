//! Which folders get archived: of the folders that were asked for, and only
//! when recursion is on, the ones below them that hold no folder themselves.
//!
//! The resolver never looks at a disk. It says which folder it wants listed
//! next, takes the listing, and goes on from there.

use vstd::prelude::*;
use crate::entries::{subfolder_names, subfolders, Entry};
use crate::names::names;

verus! {

/// What was seen of a folder that the resolver asked about.
#[derive(Clone, Debug, PartialEq, Eq)]
pub struct Listing {
    /// Whether the path exists.
    pub exists: bool,
    /// Whether the path names a directory.
    pub is_dir: bool,
    /// The entries of the directory, in the order in which they were read;
    /// `None` where it could not be read.
    pub children: Option<Vec<Entry>>,
}

/// The folders that a listing shows inside the listed folder. There are
/// none where the path is missing or names no directory, and none where the
/// directory could not be read.
pub open spec fn subfolders_of(listing: Listing) -> Seq<Seq<char>> {
    if listing.exists && listing.is_dir && listing.children is Some {
        subfolder_names(listing.children->0@)
    } else {
        Seq::empty()
    }
}

/// The state of a resolution: the folders still to be looked at, the next
/// one first, and the folders found so far.
pub struct ResolverView {
    pub pending: Seq<Seq<char>>,
    pub found: Seq<Seq<char>>,
}

/// The state after the first pending folder was listed and showed
/// `subfolders`: a folder with subfolders gives way to them, any other
/// folder is found.
pub open spec fn advance(state: ResolverView, subfolders: Seq<Seq<char>>) -> ResolverView
    recommends
        state.pending.len() > 0,
{
    if subfolders.len() > 0 {
        ResolverView { pending: subfolders + state.pending.drop_first(), found: state.found }
    } else {
        ResolverView {
            pending: state.pending.drop_first(),
            found: state.found.push(state.pending[0]),
        }
    }
}

/// The state at the start: with recursion every folder is pending, without
/// it every folder is found as it is.
pub open spec fn initial(folders: Seq<Seq<char>>, recursive: bool) -> ResolverView {
    if recursive {
        ResolverView { pending: folders, found: Seq::empty() }
    } else {
        ResolverView { pending: Seq::empty(), found: folders }
    }
}

/// A resolution in progress.
pub struct Resolver {
    /// The folders still to be looked at, the next one last.
    waiting: Vec<String>,
    found: Vec<String>,
}

impl View for Resolver {
    type V = ResolverView;

    closed spec fn view(&self) -> ResolverView {
        ResolverView { pending: names(self.waiting@).reverse(), found: names(self.found@) }
    }
}

/// Pushing onto a stack puts the new item first in the order of removal.
proof fn lemma_reverse_push(stack: Seq<Seq<char>>, top: Seq<char>)
    ensures
        stack.push(top).reverse() == seq![top] + stack.reverse(),
{
    let pushed = stack.push(top);
    assert forall|i: int| 0 <= i < pushed.len() implies pushed.reverse()[i] == (seq![top]
        + stack.reverse())[i] by {
        if i > 0 {
            assert(stack.reverse()[i - 1] == stack[stack.len() - 1 - (i - 1)]);
        }
    }
    assert(pushed.reverse() =~= seq![top] + stack.reverse());
}

impl Resolver {
    /// Starts a resolution of `folders`.
    pub fn new(folders: Vec<String>, recursive: bool) -> (resolver: Resolver)
        ensures
            resolver@ == initial(names(folders@), recursive),
    {
        if recursive {
            let mut waiting: Vec<String> = Vec::new();
            let mut k: usize = folders.len();
            while k > 0
                invariant
                    k <= folders.len(),
                    names(waiting@).reverse() == names(folders@).skip(k as int),
                decreases k,
            {
                let ghost before = waiting@;
                k = k - 1;
                let folder = folders[k].clone();
                waiting.push(folder);
                assert(names(waiting@) =~= names(before).push(folders@[k as int]@));
                proof {
                    lemma_reverse_push(names(before), folders@[k as int]@);
                }
                assert(names(waiting@).reverse() =~= names(folders@).skip(k as int));
            }
            assert(names(folders@).skip(0) =~= names(folders@));
            let resolver = Resolver { waiting, found: Vec::new() };
            assert(names(resolver.found@) =~= Seq::<Seq<char>>::empty());
            resolver
        } else {
            let resolver = Resolver { waiting: Vec::new(), found: folders };
            assert(names(resolver.waiting@).reverse() =~= Seq::<Seq<char>>::empty());
            resolver
        }
    }

    /// Whether no folder is left to look at.
    pub fn is_done(&self) -> (done: bool)
        ensures
            done == (self@.pending.len() == 0),
    {
        self.waiting.len() == 0
    }

    /// The folder that is to be listed next, if one is left.
    pub fn next_folder(&self) -> (next: Option<String>)
        ensures
            next is None <==> self@.pending.len() == 0,
            next matches Some(folder) ==> folder@ == self@.pending[0],
    {
        if self.waiting.len() == 0 {
            None
        } else {
            let folder = self.waiting[self.waiting.len() - 1].clone();
            Some(folder)
        }
    }

    /// Takes the listing of the folder that `next_folder` named.
    pub fn record(&mut self, listing: Listing)
        requires
            old(self)@.pending.len() > 0,
        ensures
            final(self)@ == advance(old(self)@, subfolders_of(listing)),
    {
        let ghost rest = old(self)@.pending.drop_first();
        let folder = self.waiting.pop().unwrap();
        assert(names(self.waiting@).reverse() =~= rest);
        assert(folder@ == old(self)@.pending[0]);
        let inside: Vec<String> = if listing.exists && listing.is_dir {
            match &listing.children {
                Some(entries) => subfolders(entries),
                None => Vec::new(),
            }
        } else {
            Vec::new()
        };
        assert(names(inside@) =~= subfolders_of(listing));
        if inside.len() > 0 {
            let mut k: usize = inside.len();
            while k > 0
                invariant
                    k <= inside.len(),
                    names(self.waiting@).reverse() == names(inside@).skip(k as int) + rest,
                    self.found == old(self).found,
                decreases k,
            {
                let ghost before = self.waiting@;
                k = k - 1;
                let name = inside[k].clone();
                self.waiting.push(name);
                assert(names(self.waiting@) =~= names(before).push(inside@[k as int]@));
                proof {
                    lemma_reverse_push(names(before), inside@[k as int]@);
                }
                assert(names(self.waiting@).reverse() =~= names(inside@).skip(k as int) + rest);
            }
            assert(names(inside@).skip(0) =~= names(inside@));
        } else {
            let ghost before = self.found@;
            self.found.push(folder);
            assert(names(self.found@) =~= names(before).push(folder@));
        }
    }

    /// The folders found so far: once nothing is pending, the folders to
    /// archive.
    pub fn into_folders(self) -> (folders: Vec<String>)
        ensures
            names(folders@) == self@.found,
    {
        self.found
    }
}

} // verus!
