//! B+Tree search.
//!
//! A search descends from the root to the leaf that can hold the key, finds the entry
//! there, and walks right along the leaves where a bound is not satisfied on the leaf the
//! descent reached. What it promises is stated over every tree the file's pages hold
//! ([`Tree::holds`]): the row it is after, or that there is none.

use std::ops::Range;
use std::sync::atomic::AtomicBool;
use std::sync::Arc;

use vstd::prelude::*;

use crate::budget::{self, Charge, BUFFER_OVERHEAD};
use crate::encoding::{KeyEncoding, SharedEncoding};
use crate::error::{Error, Words};
use crate::format::node::{self, LeafEntry, LeafValue, NodeKind, NodeLayout, PageView};
use crate::format::{PageOrdinal, PAGE_PREFIX_LEN};
use crate::model::{self, TreeShape};
use crate::locked;
use crate::page::PagePin;
use crate::store::{self, PageStore};

pub mod paths;
pub mod within;

pub use self::within::SearchOp;

verus! {

broadcast use crate::format::group_format;

/// A single B+Tree, rooted at one page.
pub struct Tree {
    store: Arc<PageStore>,
    root: Option<PageOrdinal>,
    encoding: SharedEncoding,
    /// Identifies this tree in the per-page "already checked" marker.
    id: u64,
    /// Whether a page's digests are checked against its keys before it is used.
    validate_digests: bool,
    /// Cleared when the tree goes away, so the store lets go of its root.
    alive: Arc<AtomicBool>,
    /// What the catalog and the handles built from it cost.
    ///
    /// A cursor keeps its tree alive and nothing else, so without this the reservation
    /// that paid for the tree would go when the database did, while the tree the cursor
    /// is reading from is still here.
    catalog_charge: Arc<Charge>,
}

impl Drop for Tree {
    fn drop(&mut self)
        ensures
            old(self).let_go(),
            final(self).spec_store() == old(self).spec_store(),
            final(self).spec_charge() == old(self).spec_charge(),
        opens_invariants none
        no_unwind
    {
        // The store keeps this tree's root alive; without this it would stay charged to
        // the budget with nothing left that could ever ask for it.
        locked::mark_gone(&self.alive);
    }
}

impl Tree {
    /// The store the tree's pages are in.
    pub closed spec fn spec_store(&self) -> Arc<PageStore> {
        self.store
    }

    /// Whether the store was told that the tree is gone, and its root with it.
    pub closed spec fn let_go(&self) -> bool {
        call_ensures(locked::mark_gone, (&*self.alive,), ())
    }

    /// The reservation of the catalog that the tree keeps alive.
    pub closed spec fn spec_charge(&self) -> Arc<Charge> {
        self.catalog_charge
    }

    /// The root page.
    pub closed spec fn spec_root(&self) -> Option<PageOrdinal> {
        self.root
    }

    /// The encoding of the tree's keys.
    pub closed spec fn spec_encoding(&self) -> SharedEncoding {
        self.encoding
    }

    /// Whether the file's pages hold a tree of this shape at the root, not deeper than a
    /// tree may be.
    pub open spec fn holds(&self, s: TreeShape, layout: NodeLayout) -> bool {
        &&& self.spec_root() matches Some(root)
        &&& model::tree_ok(s, self.spec_encoding(), layout, self.spec_store().pages(), root)
        &&& s.levels.len() <= self.spec_store().spec_limits().max_tree_depth
    }

    /// Whether a page is one that reading this tree may come to: the root, or one that a page of
    /// the file names.
    pub open spec fn knows(&self, o: PageOrdinal) -> bool {
        ||| self.spec_root() == Some(o)
        ||| exists|from: PageOrdinal|
            self.spec_store().pages().contains_key(from) && #[trigger] names(
                self.spec_store().pages()[from],
                o,
            )
    }

    /// Whether an error is one that reading this page of the tree may report: memory, the source,
    /// or a page that is not what it should be.
    pub open spec fn fault_at(&self, o: PageOrdinal, e: Error) -> bool {
        ||| self.spec_store().failure(o, e, self.spec_store().pages().contains_key(o))
        ||| within::page_fault(self.spec_encoding(), e)
    }

    /// Whether an error is one that reading some page of this tree may report.
    pub open spec fn fault(&self, e: Error) -> bool {
        ||| within::page_fault(self.spec_encoding(), e)
        ||| exists|o: PageOrdinal| self.knows(o) && #[trigger] self.fault_at(o, e)
    }

    /// A page that another names is one that reading the tree may come to.
    pub(crate) proof fn lemma_knows(&self, from: PageOrdinal, o: PageOrdinal)
        requires
            self.spec_store().pages().contains_key(from),
            names(self.spec_store().pages()[from], o),
        ensures
            self.knows(o),
            forall|e: Error| #[trigger] self.fault_at(o, e) ==> self.fault(e),
    {
    }

    /// Whether an error says that there was no memory for a copy of an entry's key: of the key
    /// as the page has it, or of the key rebuilt where the page omits it.
    pub open spec fn key_denied_on(&self, p: Seq<u8>, i: int, e: Error) -> bool {
        if node::page_layout(p).omitted_keys {
            ||| self.spec_encoding().inner.rebuilt_len() matches Some(n)
                && self.spec_store().short_of(budget::capped(n + BUFFER_OVERHEAD), e)
            ||| self.spec_encoding().inner.rebuilt(node::page_digests(p)[i]) matches Some(k)
                && self.spec_store().short_of(budget::capped(k.len() + BUFFER_OVERHEAD), e)
        } else {
            self.spec_store().short_of(
                budget::capped(node::entry_key_at(p, i).len() + BUFFER_OVERHEAD),
                e,
            )
        }
    }

    /// Whether an error says that there was no memory for a copy of the key of some entry of the
    /// file.
    pub open spec fn key_denied(&self, e: Error) -> bool {
        exists|o: PageOrdinal, i: int|
            self.spec_store().pages().contains_key(o) && 0 <= i < node::page_count(
                self.spec_store().pages()[o],
            ) && #[trigger] self.key_denied_on(self.spec_store().pages()[o], i, e)
    }

    /// What there was no memory for is the copy of the key of this entry.
    pub(crate) proof fn lemma_key_denied(&self, o: PageOrdinal, i: int, e: Error)
        requires
            self.spec_store().pages().contains_key(o),
            0 <= i < node::page_count(self.spec_store().pages()[o]),
            self.key_denied_on(self.spec_store().pages()[o], i, e),
        ensures
            self.key_denied(e),
    {
    }

    /// Whether an error says that there was no memory for walking the tree: for a page of the
    /// file, or for a copy of a key.
    pub open spec fn walk_denied(&self, e: Error) -> bool {
        self.spec_store().denied(e) || self.key_denied(e)
    }

    /// Whether an error is one that reading this tree may report: memory, or whatever is
    /// wrong where the pages hold no tree or cannot be read dependably. Where there is no root
    /// there is nothing to read, and nothing to report.
    pub open spec fn failure(&self, e: Error) -> bool {
        &&& self.spec_root() is Some
        &&& self.fault(e)
        &&& self.spec_store().excused(e) || !self.spec_store().steady() || forall|
            s: TreeShape,
            layout: NodeLayout,
        |
            !#[trigger] self.holds(s, layout)
    }

    /// Whether an error is one that looking a key up in this tree may report.
    pub open spec fn key_failure(&self, key: Seq<u8>, e: Error) -> bool {
        ||| !self.spec_encoding().inner.accepts(key) && within::page_fault(self.spec_encoding(), e)
        ||| self.failure(e)
    }

    /// Which tree of the file this is, to the marks on its pages.
    pub closed spec fn spec_id(&self) -> u64 {
        self.id
    }

    /// Whether a page's digests are checked against its keys before it is used.
    pub closed spec fn spec_validates(&self) -> bool {
        self.validate_digests
    }

    /// Whether a page was checked before it was used, where pages are: its digests are right,
    /// or the mark on it said that this tree found them so before.
    pub open spec fn checked(&self, pin: PagePin) -> bool {
        self.spec_validates() ==> within::digests_sound(self.spec_encoding(), pin@) || pin.marked(
            self.spec_id(),
        )
    }

    /// Whether a pin holds a page of the file, and the charge that pays for it.
    pub open spec fn pins(&self, pin: PagePin) -> bool {
        &&& self.spec_store().pages().contains_key(pin.spec_ordinal())
        &&& pin@ == self.spec_store().pages()[pin.spec_ordinal()]
        &&& pin.paid(self.spec_store().spec_budget())
    }

    /// Whether a leaf of the file does not have a key, where its entries are in order.
    pub open spec fn lacks_on(&self, key: Seq<u8>, o: PageOrdinal) -> bool {
        let p = self.spec_store().pages()[o];
        &&& self.spec_store().pages().contains_key(o)
        &&& node::page_kind(p) == NodeKind::Leaf
        &&& forall|layout: NodeLayout, keys: Seq<Seq<u8>>| #[trigger]
            within::ordered(self.spec_encoding(), layout, p, keys) ==> within::is_hit(
                self.spec_encoding(),
                keys,
                key,
                SearchOp::Equal,
                None,
            )
    }

    /// Whether a key was looked for and not found: there is no tree, or the leaf that the search
    /// ended on does not have it.
    pub open spec fn missed(&self, key: Seq<u8>) -> bool {
        self.spec_root() is None || exists|o: PageOrdinal| #[trigger] self.lacks_on(key, o)
    }

    /// Creates a reader of the tree at `root`.
    pub fn new(
        store: Arc<PageStore>,
        root: Option<PageOrdinal>,
        encoding: SharedEncoding,
        validate_digests: bool,
        catalog_charge: Arc<Charge>,
    ) -> (r: Tree)
        ensures
            r.spec_store() == store,
            r.spec_root() == root,
            r.spec_encoding() == encoding,
            r.spec_validates() == validate_digests,
            r.spec_charge() == catalog_charge,
            store.numbered(r.spec_id()),
    {
        let id = store.tree_identity();
        Tree {
            store,
            root,
            encoding,
            id,
            validate_digests,
            alive: Arc::new(AtomicBool::new(true)),
            catalog_charge,
        }
    }

    /// Loads a page belonging to this tree, checked.
    ///
    /// Searches trust the digest array: it decides where in a page the key comparison
    /// starts, so a digest that disagrees with its key makes a search skip rows without
    /// any bound being violated. The format layer cannot check that, because a digest is
    /// only meaningful next to the key encoding.
    ///
    /// The check is recorded on the page buffer rather than done inside the load, so a
    /// page this tree has not checked is checked here even when something else put it in
    /// the cache first: the same bytes are reachable through blob reads, `verify`, and
    /// every other tree in the file. The marker is cleared when the buffer is evicted,
    /// and it is keyed by tree because the same page under a different key encoding is a
    /// different question.
    fn tree_page(&self, ordinal: PageOrdinal) -> (r: Result<PagePin, Error>)
        ensures
            match r {
                Ok(pin) => pin.spec_ordinal() == ordinal && self.pins(pin) && self.checked(pin),
                Err(e) => self.fault_at(ordinal, e) && (self.spec_store().excused(e) || !self.spec_store().steady()
                    || !(self.spec_store().pages().contains_key(ordinal)
                    && within::digests_sound(
                    self.spec_encoding(),
                    self.spec_store().pages()[ordinal],
                ))),
            },
    {
        let pin = self.store.page(ordinal)?;
        self.check_page(&pin)?;
        Ok(pin)
    }

    /// Runs the digest check on `pin` unless this tree has already run it.
    fn check_page(&self, pin: &PagePin) -> (r: Result<(), Error>)
        requires
            self.pins(*pin),
        ensures
            match r {
                Ok(_) => self.checked(*pin),
                Err(e) => within::page_fault(self.spec_encoding(), e) && !within::digests_sound(
                    self.spec_encoding(),
                    pin@,
                ),
            },
    {
        if !self.validate_digests || pin.digests_checked_by(self.id) {
            return Ok(());
        }
        let view = pin.parsed()?;
        match within::check_digests(&self.encoding, &view) {
            Ok(_) => {},
            Err(e) => return Err(e.at_page(pin.ordinal().get())),
        }
        pin.mark_digests_checked(self.id);
        Ok(())
    }

    /// Checks that a page is ordered the way a search assumes it is.
    pub fn check_digests(&self, view: &PageView<'_>) -> (r: Result<(), Error>)
        ensures
            match r {
                Ok(_) => within::digests_sound(self.spec_encoding(), view.page()),
                Err(e) => within::page_fault(self.spec_encoding(), e) && !(within::digests_sound(
                    self.spec_encoding(),
                    view.page(),
                ) && node::entries_ok(view.page())),
            },
    {
        within::check_digests(&self.encoding, view)
    }

    /// The root page, from the pin when there is one.
    fn root_page(&self) -> (r: Result<Option<PagePin>, Error>)
        ensures
            match r {
                Ok(Some(pin)) => self.spec_root() == Some(pin.spec_ordinal()) && self.pins(pin) && (
                self.checked(pin) || self.spec_store().found_root(self.spec_id(), Some(pin))),
                Ok(None) => self.spec_root() is None,
                Err(e) => self.spec_root() is Some && self.failure(e),
            },
    {
        let root = match self.root {
            Some(root) => root,
            None => return Ok(None),
        };
        match self.store.retained_root(self.id) {
            Some(pin) => {
                if pin.ordinal().get() == root.get() {
                    return Ok(Some(pin));
                }
            },
            None => {},
        }
        let pin = match self.tree_page(root) {
            Ok(pin) => pin,
            Err(e) => {
                proof {
                    self.lemma_root_sound();
                    assert(self.knows(root) && self.fault_at(root, e));
                }
                return Err(e);
            },
        };
        // Kept by the store rather than here, so that a later read which needs the
        // memory more can take it back. A tree that held its own root would keep it
        // past that point, and no amount of evicting would reach it.
        if self.store.has_headroom_for(pin.len() as u64) {
            self.store.retain_root(self.id, &self.alive, pin.clone());
        }
        Ok(Some(pin))
    }

    /// Where the pages hold a tree, its root is sound.
    proof fn lemma_root_sound(&self)
        ensures
            forall|s: TreeShape, layout: NodeLayout| #[trigger]
                self.holds(s, layout) ==> self.spec_store().pages().contains_key(
                    self.spec_root()->Some_0,
                ) && within::digests_sound(
                    self.spec_encoding(),
                    self.spec_store().pages()[self.spec_root()->Some_0],
                ),
    {
        assert forall|s: TreeShape, layout: NodeLayout| #[trigger]
            self.holds(s, layout) implies self.spec_store().pages().contains_key(
            self.spec_root()->Some_0,
        ) && within::digests_sound(
            self.spec_encoding(),
            self.spec_store().pages()[self.spec_root()->Some_0],
        ) by {
            paths::lemma_node_ordered(
                s,
                self.spec_encoding(),
                layout,
                self.spec_store().pages(),
                self.spec_root()->Some_0,
                s.levels.len() - 1,
                0,
            );
        }
    }

    /// The root page, only if it is already pinned or cached.
    fn root_page_cached(&self) -> (r: Result<Option<PagePin>, Error>)
        ensures
            match r {
                Ok(Some(pin)) => self.spec_root() == Some(pin.spec_ordinal()) && self.pins(pin) && (
                self.checked(pin) || self.spec_store().found_root(self.spec_id(), Some(pin))),
                Ok(None) => self.spec_root() matches Some(root) ==> self.spec_store().not_cached(root),
                Err(e) => self.spec_root() is Some && self.failure(e),
            },
    {
        let root = match self.root {
            Some(root) => root,
            None => return Ok(None),
        };
        match self.store.retained_root(self.id) {
            Some(pin) => {
                if pin.ordinal().get() == root.get() {
                    return Ok(Some(pin));
                }
            },
            None => {},
        }
        let pin = match self.store.page_cached(root) {
            Some(pin) => pin,
            None => return Ok(None),
        };
        match self.check_page(&pin) {
            Ok(_) => {},
            Err(e) => {
                proof {
                    self.lemma_root_sound();
                }
                return Err(e);
            },
        }
        Ok(Some(pin))
    }

    /// The store the tree's pages are in.
    pub fn store(&self) -> (r: &Arc<PageStore>)
        ensures
            *r == self.spec_store(),
    {
        &self.store
    }

    /// The root page ordinal, or `None` for an empty tree.
    pub fn root(&self) -> (r: Option<PageOrdinal>)
        ensures
            r == self.spec_root(),
    {
        self.root
    }

    /// Loads a page without the digest check.
    ///
    /// For `verify`, which reports a bad page and carries on instead of stopping at the
    /// first one, and therefore runs the check itself.
    pub fn raw_page(&self, ordinal: PageOrdinal) -> (r: Result<PagePin, Error>)
        ensures
            match r {
                Ok(pin) => pin.spec_ordinal() == ordinal && self.pins(pin),
                Err(e) => self.spec_store().failure(
                    ordinal,
                    e,
                    self.spec_store().pages().contains_key(ordinal),
                ),
            },
    {
        self.store.page(ordinal)
    }

    /// The encoding of the tree's keys.
    pub fn encoding(&self) -> (r: &SharedEncoding)
        ensures
            *r == self.spec_encoding(),
    {
        &self.encoding
    }

    /// Digest of a search key.
    pub fn digest_of(&self, key: &[u8]) -> (r: Result<u64, Error>)
        ensures
            match r {
                Ok(d) => self.spec_encoding().inner.accepts(key@) && d
                    == self.spec_encoding().inner.digest_of(key@),
                Err(e) => !self.spec_encoding().inner.accepts(key@) && within::page_fault(
                    self.spec_encoding(),
                    e,
                ),
            },
    {
        self.encoding.inner.digest(key)
    }

    /// Whether a page is where a search is after `d` steps down, in every tree there is.
    pub open spec fn path(&self, key: Seq<u8>, d: int, o: PageOrdinal) -> bool {
        forall|s: TreeShape, layout: NodeLayout| #[trigger]
            self.holds(s, layout) ==> paths::on_path(s, self.spec_encoding(), key, d, o)
    }

    /// Whether the tree leads to a page: it is the root, or a page of the file has it as a child
    /// or as its right neighbour.
    pub open spec fn reaches(&self, o: PageOrdinal) -> bool {
        ||| self.spec_root() == Some(o)
        ||| exists|from: PageOrdinal|
            self.spec_store().pages().contains_key(from) && #[trigger] leads_to(
                self.spec_store().pages()[from],
                o,
            )
    }

    /// Whether a search for a key came to a page that is not cached: one that the tree leads to,
    /// and that is on the way to the key in every tree the pages hold.
    pub open spec fn stopped(&self, key: Seq<u8>) -> bool {
        exists|o: PageOrdinal, d: int|
            self.spec_store().not_cached(o) && self.reaches(o) && #[trigger] self.path(key, d, o)
    }

    proof fn lemma_stopped(&self, key: Seq<u8>, d: int, from: PageOrdinal, o: PageOrdinal)
        requires
            self.spec_store().pages().contains_key(from),
            leads_to(self.spec_store().pages()[from], o),
            self.spec_store().not_cached(o),
            self.path(key, d, o),
        ensures
            self.stopped(key),
    {
    }

    /// Whether a search may go on at a leaf, in every tree there is, having taken no more
    /// than `taken` steps right.
    spec fn searching(&self, key: Seq<u8>, op: SearchOp, o: PageOrdinal, taken: int) -> bool {
        forall|s: TreeShape, layout: NodeLayout| #[trigger]
            self.holds(s, layout) ==> self.searching_in(s, key, op, o, taken)
    }

    spec fn searching_in(
        &self,
        s: TreeShape,
        key: Seq<u8>,
        op: SearchOp,
        o: PageOrdinal,
        taken: int,
    ) -> bool {
        exists|j: int|
            #[trigger] paths::searching_at(s, self.spec_encoding(), key, op, o, j) && taken <= j
    }

    /// The page of a node on the path is sound, and its keys are in order.
    proof fn lemma_path_sound(
        &self,
        s: TreeShape,
        layout: NodeLayout,
        key: Seq<u8>,
        d: int,
        o: PageOrdinal,
    )
        requires
            self.holds(s, layout),
            paths::on_path(s, self.spec_encoding(), key, d, o),
            0 <= d,
        ensures
            d < s.levels.len(),
            self.spec_store().pages().contains_key(o),
            within::digests_sound(self.spec_encoding(), self.spec_store().pages()[o]),
            exists|keys: Seq<Seq<u8>>| #[trigger]
                within::ordered(
                    self.spec_encoding(),
                    layout,
                    self.spec_store().pages()[o],
                    keys,
                ) && keys.len() == node::page_count(self.spec_store().pages()[o]),
            node::page_kind(self.spec_store().pages()[o]) == NodeKind::Internal
                ==> node::page_count(self.spec_store().pages()[o]) > 0,
            d == s.levels.len() - 1 <==> node::page_kind(self.spec_store().pages()[o])
                == NodeKind::Leaf,
    {
        let e = self.spec_encoding();
        let j = choose|j: int| #[trigger] paths::node_on_path(s, e, key, d, o, j);
        let k = s.levels.len() - 1 - d;
        paths::lemma_node_ordered(
            s,
            e,
            layout,
            self.spec_store().pages(),
            self.spec_root()->Some_0,
            k,
            j,
        );
    }

    /// Steps down from an internal page on the path. Returns the child to go on at, and
    /// whether the choice was conservative.
    fn step_down(
        &self,
        view: &PageView<'_>,
        ordinal: PageOrdinal,
        key: &[u8],
        key_digest: u64,
        Ghost(d): Ghost<int>,
    ) -> (r: Result<(PageOrdinal, bool), Error>)
        requires
            self.spec_store().pages().contains_key(ordinal),
            view.page() == self.spec_store().pages()[ordinal],
            node::page_kind(view.page()) == NodeKind::Internal,
            self.spec_encoding().inner.accepts(key@),
            key_digest == self.spec_encoding().inner.digest_of(key@),
            self.path(key@, d, ordinal),
            0 <= d,
            self.spec_root() is Some,
        ensures
            match r {
                Ok((child, inexact)) => {
                    &&& self.path(key@, d + 1, child)
                    &&& leads_to(view.page(), child)
                    &&& inexact ==> forall|s: TreeShape, layout: NodeLayout|
                        !#[trigger] self.holds(s, layout)
                },
                Err(e) => self.failure(e),
            },
    {
        let ghost p = view.page();
        let ghost enc = self.spec_encoding();
        proof {
            assert forall|s: TreeShape, layout: NodeLayout| #[trigger]
                self.holds(s, layout) implies node::page_count(p) > 0 && exists|
                keys: Seq<Seq<u8>>,
            | #[trigger]
                within::ordered(enc, layout, p, keys) by {
                self.lemma_path_sound(s, layout, key@, d, ordinal);
            }
        }
        if view.entry_count() == 0 {
            return Err(Error::corrupt("internal page has no children").at_page(ordinal.get()));
        }
        let (index, inexact) = match within::internal_child_index(
            &self.encoding,
            view,
            key,
            key_digest,
        ) {
            Ok(found) => found,
            Err(e) => return Err(e),
        };
        proof {
            assert forall|s: TreeShape, layout: NodeLayout| #[trigger]
                self.holds(s, layout) implies !inexact && (node::internal_entry_at(
                p,
                index as int,
            ) matches Some(entry) && entry.child != ordinal && paths::on_path(
                s,
                enc,
                key@,
                d + 1,
                entry.child,
            )) by {
                paths::lemma_path_step(
                    s,
                    enc,
                    layout,
                    self.spec_store().pages(),
                    self.spec_root()->Some_0,
                    key@,
                    d,
                    ordinal,
                    index as int,
                );
                let keys = choose|keys: Seq<Seq<u8>>| #[trigger]
                    within::ordered(enc, layout, p, keys);
            }
        }
        let entry = match view.internal_entry(index) {
            Ok(entry) => entry,
            Err(e) => return Err(e),
        };
        if entry.child.get() == ordinal.get() {
            return Err(Error::corrupt("internal page points at itself").at_page(ordinal.get()));
        }
        Ok((entry.child, inexact))
    }

    /// Walks from the root to the leaf that could hold `key`.
    ///
    /// The flag says the descent had to settle for a child that starts strictly below
    /// the key, so the first match may be on a later leaf. See
    /// [`within::internal_child_index`].
    fn descend(&self, key: &[u8], key_digest: u64) -> (r: Result<Option<(PagePin, bool)>, Error>)
        requires
            self.spec_encoding().inner.accepts(key@),
            key_digest == self.spec_encoding().inner.digest_of(key@),
        ensures
            match r {
                Ok(Some((pin, conservative))) => {
                    &&& self.spec_root() is Some
                    &&& self.pins(pin)
                    &&& node::page_kind(pin@) == NodeKind::Leaf
                    &&& conservative ==> forall|s: TreeShape, layout: NodeLayout|
                        !#[trigger] self.holds(s, layout)
                    &&& forall|op: SearchOp| #[trigger]
                        self.searching(key@, op, pin.spec_ordinal(), 0)
                },
                Ok(None) => self.spec_root() is None,
                Err(e) => self.failure(e),
            },
    {
        let mut pin = match self.root_page()? {
            Some(pin) => pin,
            None => return Ok(None),
        };
        let mut ordinal = pin.ordinal();
        let mut conservative = false;
        let max_depth = self.store.limits().max_tree_depth;
        proof {
            assert(self.path(key@, 0, ordinal)) by {
                assert forall|s: TreeShape, layout: NodeLayout| #[trigger]
                    self.holds(s, layout) implies paths::on_path(
                    s,
                    self.spec_encoding(),
                    key@,
                    0,
                    ordinal,
                ) by {
                    paths::lemma_path_starts(s, self.spec_encoding(), key@);
                }
            }
        }
        let mut depth: usize = 0;
        while depth < max_depth
            invariant
                self.spec_encoding().inner.accepts(key@),
                key_digest == self.spec_encoding().inner.digest_of(key@),
                max_depth == self.spec_store().spec_limits().max_tree_depth,
                depth <= max_depth,
                self.spec_root() is Some,
                self.pins(pin),
                ordinal == pin.spec_ordinal(),
                self.path(key@, depth as int, ordinal),
                conservative ==> forall|s: TreeShape, layout: NodeLayout|
                    !#[trigger] self.holds(s, layout),
            decreases max_depth - depth,
        {
            let view = match pin.parsed() {
                Ok(view) => view,
                Err(e) => {
                    proof {
                        self.lemma_parses(key@, depth as int, ordinal);
                    }
                    return Err(e);
                },
            };
            if view.kind() == NodeKind::Leaf {
                proof {
                    self.lemma_starts(key@, depth as int, ordinal);
                }
                return Ok(Some((pin, conservative)));
            }
            let (child, inexact) = match self.step_down(
                &view,
                ordinal,
                key,
                key_digest,
                Ghost(depth as int),
            ) {
                Ok(step) => step,
                Err(e) => return Err(e),
            };
            conservative = conservative || inexact;
            depth += 1;
            if depth < max_depth {
                let next = match self.tree_page(child) {
                    Ok(next) => next,
                    Err(e) => {
                        proof {
                            self.lemma_knows(ordinal, child);
                            self.lemma_loads(key@, depth as int, child);
                        }
                        return Err(e);
                    },
                };
                pin = next;
                ordinal = child;
            } else {
                proof {
                    self.lemma_too_deep(key@, depth as int, child);
                }
                return Err(self.too_deep());
            }
        }
        proof {
            self.lemma_too_deep(key@, depth as int, ordinal);
        }
        Err(self.too_deep())
    }

    /// The error of a tree that is deeper than a tree may be.
    fn too_deep(&self) -> (r: Error)
        ensures
            r.is_corrupt(),
    {
        Error::corrupt_number(
            "tree is deeper than the ",
            self.store.limits().max_tree_depth as u64,
            " level limit; the child chain is cyclic",
        )
    }

    /// The page of a node on the path parses.
    proof fn lemma_parses(&self, key: Seq<u8>, d: int, o: PageOrdinal)
        requires
            self.path(key, d, o),
            0 <= d,
            !node::page_ok(self.spec_store().pages()[o]),
        ensures
            forall|s: TreeShape, layout: NodeLayout| !#[trigger] self.holds(s, layout),
    {
        assert forall|s: TreeShape, layout: NodeLayout| !#[trigger] self.holds(s, layout) by {
            if self.holds(s, layout) {
                self.lemma_path_sound(s, layout, key, d, o);
            }
        }
    }

    /// A search may go on at the leaf the descent reached.
    proof fn lemma_starts(&self, key: Seq<u8>, d: int, o: PageOrdinal)
        requires
            self.path(key, d, o),
            0 <= d,
            self.spec_encoding().inner.accepts(key),
            node::page_kind(self.spec_store().pages()[o]) == NodeKind::Leaf,
        ensures
            forall|op: SearchOp| #[trigger] self.searching(key, op, o, 0),
    {
        assert forall|op: SearchOp| #[trigger] self.searching(key, op, o, 0) by {
            assert forall|s: TreeShape, layout: NodeLayout| #[trigger]
                self.holds(s, layout) implies self.searching_in(s, key, op, o, 0) by {
                paths::lemma_search_starts(
                    s,
                    self.spec_encoding(),
                    layout,
                    self.spec_store().pages(),
                    self.spec_root()->Some_0,
                    key,
                    op,
                    d,
                    o,
                );
                let j = choose|j: int| #[trigger]
                    paths::searching_at(s, self.spec_encoding(), key, op, o, j);
                assert(paths::searching_at(s, self.spec_encoding(), key, op, o, j) && 0 <= j);
            }
        }
    }

    /// The page of a node on the path can be loaded.
    proof fn lemma_loads(&self, key: Seq<u8>, d: int, o: PageOrdinal)
        requires
            self.path(key, d, o),
            0 <= d,
        ensures
            forall|s: TreeShape, layout: NodeLayout| #[trigger]
                self.holds(s, layout) ==> self.spec_store().pages().contains_key(o)
                    && within::digests_sound(self.spec_encoding(), self.spec_store().pages()[o]),
    {
        assert forall|s: TreeShape, layout: NodeLayout| #[trigger]
            self.holds(s, layout) implies self.spec_store().pages().contains_key(o)
            && within::digests_sound(self.spec_encoding(), self.spec_store().pages()[o]) by {
            self.lemma_path_sound(s, layout, key, d, o);
        }
    }

    /// No tree is deeper than a tree may be.
    proof fn lemma_too_deep(&self, key: Seq<u8>, d: int, o: PageOrdinal)
        requires
            self.path(key, d, o),
            d >= self.spec_store().spec_limits().max_tree_depth,
        ensures
            forall|s: TreeShape, layout: NodeLayout| !#[trigger] self.holds(s, layout),
    {
        assert forall|s: TreeShape, layout: NodeLayout| !#[trigger] self.holds(s, layout) by {
            if self.holds(s, layout) {
                self.lemma_path_sound(s, layout, key, d, o);
            }
        }
    }
}

impl Tree {
    /// The leftmost leaf entry, or `None` for an empty tree.
    pub fn min_leaf(&self) -> (r: Result<Option<(PagePin, usize)>, Error>)
        ensures
            self.edge_found(true, r),
    {
        self.edge_leaf(true)
    }

    /// The rightmost leaf entry, or `None` for an empty tree.
    pub fn max_leaf(&self) -> (r: Result<Option<(PagePin, usize)>, Error>)
        ensures
            self.edge_found(false, r),
    {
        self.edge_leaf(false)
    }

    /// The page that is `d` steps down from the root, always by the first child or always by
    /// the last.
    pub open spec fn edge_page(&self, left: bool, d: nat) -> Option<PageOrdinal>
        decreases d,
    {
        if d == 0 {
            self.spec_root()
        } else {
            match self.edge_page(left, (d - 1) as nat) {
                Some(o) => {
                    let p = self.spec_store().pages()[o];
                    let c = if left {
                        0
                    } else {
                        node::page_count(p) - 1
                    };
                    if self.spec_store().pages().contains_key(o) && node::page_kind(p)
                        == NodeKind::Internal {
                        match node::internal_entry_at(p, c) {
                            Some(entry) => Some(entry.child),
                            None => None,
                        }
                    } else {
                        None
                    }
                },
                None => None,
            }
        }
    }

    /// Whether going down by the first children, or by the last, comes to this leaf, or to
    /// none that has an entry.
    pub open spec fn edge_is(&self, left: bool, found: Option<PageOrdinal>) -> bool {
        match found {
            Some(o) => exists|d: nat|
                #[trigger] self.edge_page(left, d) == Some(o) && self.is_leaf(o, true),
            None => self.spec_root() is None || exists|d: nat|
                (#[trigger] self.edge_page(left, d) matches Some(o) && self.is_leaf(o, false)),
        }
    }

    /// Whether a page of the file is a leaf, with entries or without.
    pub open spec fn is_leaf(&self, o: PageOrdinal, filled: bool) -> bool {
        let p = self.spec_store().pages()[o];
        &&& self.spec_store().pages().contains_key(o)
        &&& node::page_kind(p) == NodeKind::Leaf
        &&& filled == (node::page_count(p) > 0)
    }

    /// Whether a chain of leaves that goes this way may end at this one: the tree itself ends
    /// there, or has no entries.
    pub open spec fn ends(&self, o: PageOrdinal, ascending: bool) -> bool {
        self.edge_is(!ascending, Some(o)) || self.edge_is(!ascending, None)
    }

    /// Whether a leaf is followed by what its own link says: the leaf it names, which points
    /// back at it, or nothing, and then the tree ends there too.
    pub open spec fn follows(&self, pin: PagePin, ascending: bool, next: Option<PagePin>) -> bool {
        match next {
            Some(next) => {
                &&& Tree::link_on(pin@, ascending) == Some(next.spec_ordinal())
                &&& Tree::link_back(next@, ascending) == Some(pin.spec_ordinal())
                &&& self.pins(next)
                &&& self.checked(next)
                &&& node::page_kind(next@) == NodeKind::Leaf
            },
            None => Tree::link_on(pin@, ascending) is None && self.ends(
                pin.spec_ordinal(),
                ascending,
            ),
        }
    }

    /// Whether a leaf of the file is followed by what its own link says: the leaf it names,
    /// which points back at it, or nothing, and then the tree ends there too.
    pub open spec fn linked(&self, o: PageOrdinal, ascending: bool, next: Option<PageOrdinal>) -> bool {
        let pages = self.spec_store().pages();
        &&& pages.contains_key(o)
        &&& Tree::link_on(pages[o], ascending) == next
        &&& match next {
            Some(n) => {
                &&& pages.contains_key(n)
                &&& Tree::link_back(pages[n], ascending) == Some(o)
                &&& node::page_kind(pages[n]) == NodeKind::Leaf
            },
            None => self.ends(o, ascending),
        }
    }

    /// Whether a chain of leaves was followed this way to where it and the tree end, or there
    /// is no tree.
    pub open spec fn ran_dry(&self, ascending: bool) -> bool {
        self.spec_root() is None || exists|o: PageOrdinal| #[trigger]
            self.linked(o, ascending, None)
    }

    /// Whether an entry is the first or the last of every tree there is, or there are no
    /// rows.
    pub open spec fn edge_found(
        &self,
        leftmost: bool,
        r: Result<Option<(PagePin, usize)>, Error>,
    ) -> bool {
        match r {
            Ok(Some((pin, i))) => {
                &&& self.spec_root() is Some
                &&& self.pins(pin)
                &&& node::page_kind(pin@) == NodeKind::Leaf
                &&& i == (if leftmost {
                    0
                } else {
                    node::page_count(pin@) - 1
                })
                &&& i < node::page_count(pin@)
                &&& self.edge_is(leftmost, Some(pin.spec_ordinal()))
                &&& forall|s: TreeShape, layout: NodeLayout| #[trigger]
                    self.holds(s, layout) ==> s.rows.len() > 0 && paths::leaf_at(
                        s,
                        pin.spec_ordinal(),
                        if leftmost {
                            0
                        } else {
                            s.levels[0].len() - 1
                        },
                    ) && paths::entry_is_row(
                        s,
                        pin.spec_ordinal(),
                        i as int,
                        if leftmost {
                            0
                        } else {
                            s.rows.len() - 1
                        },
                    )
            },
            Ok(None) => {
                &&& self.edge_is(leftmost, None)
                &&& forall|s: TreeShape, layout: NodeLayout| #[trigger]
                    self.holds(s, layout) ==> s.rows.len() == 0
            },
            Err(e) => self.failure(e),
        }
    }

    /// Whether a page is at an edge, `d` steps down, in every tree there is.
    spec fn edge(&self, left: bool, d: int, o: PageOrdinal) -> bool {
        forall|s: TreeShape, layout: NodeLayout| #[trigger]
            self.holds(s, layout) ==> paths::on_edge(s, left, d, o)
    }

    /// What is known of a page at an edge.
    proof fn lemma_edge_sound(&self, left: bool, d: int, o: PageOrdinal)
        requires
            self.edge(left, d, o),
            0 <= d,
        ensures
            forall|s: TreeShape, layout: NodeLayout| #[trigger]
                self.holds(s, layout) ==> {
                    let p = self.spec_store().pages()[o];
                    &&& d < s.levels.len()
                    &&& self.spec_store().pages().contains_key(o)
                    &&& within::digests_sound(self.spec_encoding(), p)
                    &&& node::page_ok(p)
                    &&& node::page_kind(p) == NodeKind::Internal ==> {
                        let c = if left {
                            0
                        } else {
                            node::page_count(p) - 1
                        };
                        &&& node::page_count(p) > 0
                        &&& node::internal_entry_at(p, c) matches Some(entry) && entry.child != o
                            && paths::on_edge(s, left, d + 1, entry.child)
                    }
                    &&& node::page_kind(p) == NodeKind::Leaf ==> {
                        let j = if left {
                            0
                        } else {
                            s.levels[0].len() - 1
                        };
                        &&& paths::leaf_at(s, o, j)
                        &&& node::page_count(p) == 0 ==> s.rows.len() == 0
                        &&& node::page_count(p) > 0 ==> s.rows.len() > 0 && paths::entry_is_row(
                            s,
                            o,
                            if left {
                                0
                            } else {
                                node::page_count(p) - 1
                            },
                            if left {
                                0
                            } else {
                                s.rows.len() - 1
                            },
                        )
                    }
                },
    {
        let e = self.spec_encoding();
        let pages = self.spec_store().pages();
        assert forall|s: TreeShape, layout: NodeLayout| #[trigger]
            self.holds(s, layout) implies {
            let p = pages[o];
            &&& d < s.levels.len()
            &&& pages.contains_key(o)
            &&& within::digests_sound(e, p)
            &&& node::page_ok(p)
            &&& node::page_kind(p) == NodeKind::Internal ==> {
                let c = if left {
                    0
                } else {
                    node::page_count(p) - 1
                };
                &&& node::page_count(p) > 0
                &&& node::internal_entry_at(p, c) matches Some(entry) && entry.child != o
                    && paths::on_edge(s, left, d + 1, entry.child)
            }
            &&& node::page_kind(p) == NodeKind::Leaf ==> {
                let j = if left {
                    0
                } else {
                    s.levels[0].len() - 1
                };
                &&& paths::leaf_at(s, o, j)
                &&& node::page_count(p) == 0 ==> s.rows.len() == 0
                &&& node::page_count(p) > 0 ==> s.rows.len() > 0 && paths::entry_is_row(
                    s,
                    o,
                    if left {
                        0
                    } else {
                        node::page_count(p) - 1
                    },
                    if left {
                        0
                    } else {
                        s.rows.len() - 1
                    },
                )
            }
        } by {
            let root = self.spec_root()->Some_0;
            let k = s.levels.len() - 1 - d;
            paths::lemma_levels_filled(s, k);
            paths::lemma_levels_filled(s, 0);
            let j = if left {
                0
            } else {
                s.levels[k].len() - 1
            };
            paths::lemma_node_ordered(s, e, layout, pages, root, k, j);
            if node::page_kind(pages[o]) == NodeKind::Internal {
                paths::lemma_edge_step(s, e, layout, pages, root, left, d, o);
            } else {
                assert(k == 0);
                let n = s.levels[0][j];
                assert(paths::leaf_at(s, o, j));
                if !s.is_hollow() {
                    assert(s.tiled(0));
                    model::lemma_tiles_inside(s, 0, j);
                    let i = if left {
                        0
                    } else {
                        n.count - 1
                    };
                    let r = if left {
                        0
                    } else {
                        s.rows.len() - 1
                    };
                    assert(r == n.first + i);
                    assert(paths::entry_is_row(s, o, i, r));
                }
            }
        }
    }

    fn edge_leaf(&self, leftmost: bool) -> (r: Result<Option<(PagePin, usize)>, Error>)
        ensures
            self.edge_found(leftmost, r),
    {
        let mut pin = match self.root_page()? {
            Some(pin) => pin,
            None => return Ok(None),
        };
        let mut ordinal = pin.ordinal();
        let max_depth = self.store.limits().max_tree_depth;
        let mut depth: usize = 0;
        while depth < max_depth
            invariant
                max_depth == self.spec_store().spec_limits().max_tree_depth,
                depth <= max_depth,
                self.spec_root() is Some,
                self.pins(pin),
                ordinal == pin.spec_ordinal(),
                self.edge(leftmost, depth as int, ordinal),
                self.edge_page(leftmost, depth as nat) == Some(ordinal),
            decreases max_depth - depth,
        {
            proof {
                self.lemma_edge_sound(leftmost, depth as int, ordinal);
            }
            let view = match pin.parsed() {
                Ok(view) => view,
                Err(e) => return Err(e),
            };
            let count = view.entry_count();
            if view.kind() == NodeKind::Leaf {
                if count == 0 {
                    return Ok(None);
                }
                let index = if leftmost {
                    0
                } else {
                    count - 1
                };
                return Ok(Some((pin, index)));
            }
            if count == 0 {
                return Err(Error::corrupt("internal page has no children").at_page(ordinal.get()));
            }
            let index = if leftmost {
                0
            } else {
                count - 1
            };
            let entry = match view.internal_entry(index) {
                Ok(entry) => entry,
                Err(e) => return Err(e),
            };
            if entry.child.get() == ordinal.get() {
                return Err(Error::corrupt("internal page points at itself").at_page(ordinal.get()));
            }
            let child = entry.child;
            depth += 1;
            proof {
                assert(self.edge(leftmost, depth as int, child));
                self.lemma_edge_sound(leftmost, depth as int, child);
            }
            if depth < max_depth {
                proof {
                    assert(node::internal_entry_at(pin@, index as int) == Some(entry));
                    assert(leads_to(pin@, child));
                    self.lemma_knows(ordinal, child);
                }
                let next = match self.tree_page(child) {
                    Ok(next) => next,
                    Err(e) => return Err(e),
                };
                pin = next;
                ordinal = child;
            } else {
                return Err(self.too_deep());
            }
        }
        proof {
            self.lemma_edge_sound(leftmost, depth as int, ordinal);
        }
        Err(self.too_deep())
    }

    /// Whether `ordinal` is the leaf the chain ends at, going this way.
    ///
    /// A chain that ends because a page has no sibling has either reached the end of the
    /// tree or lost its way: the page the tree itself ends at settles which. Without
    /// this, a scan over a file whose chain is broken stops early and says it is done,
    /// which is a short answer given as a whole one.
    pub fn ends_at(&self, ordinal: PageOrdinal, ascending: bool) -> (r: Result<bool, Error>)
        ensures
            match r {
                Ok(b) => forall|s: TreeShape, layout: NodeLayout| #[trigger]
                    self.holds(s, layout) && s.rows.len() > 0 ==> (b <==> paths::leaf_at(
                        s,
                        ordinal,
                        if ascending {
                            s.levels[0].len() - 1
                        } else {
                            0
                        },
                    )),
                Err(e) => self.failure(e),
            },
            r == Ok::<bool, Error>(true) ==> self.ends(ordinal, ascending),
            r == Ok::<bool, Error>(false) ==> exists|o: PageOrdinal|
                o != ordinal && #[trigger] self.ends(o, ascending),
            // An empty tree has no leaves to reach, so nothing can have reached past one.
            r == Ok::<bool, Error>(false) ==> forall|s: TreeShape, layout: NodeLayout| #[trigger]
                self.holds(s, layout) ==> s.rows.len() > 0,
    {
        let edge = if ascending {
            self.max_leaf()?
        } else {
            self.min_leaf()?
        };
        match edge {
            Some((pin, _)) => {
                proof {
                    assert forall|s: TreeShape, layout: NodeLayout| #[trigger]
                        self.holds(s, layout) && s.rows.len() > 0 implies ((pin.spec_ordinal()
                        == ordinal) <==> paths::leaf_at(
                        s,
                        ordinal,
                        if ascending {
                            s.levels[0].len() - 1
                        } else {
                            0
                        },
                    )) by {
                        paths::lemma_levels_filled(s, 0);
                    }
                }
                proof {
                    assert(self.ends(pin.spec_ordinal(), ascending));
                }
                Ok(pin.ordinal().get() == ordinal.get())
            },
            None => Ok(true),
        }
    }

    /// Loads a sibling leaf, checking that it really is a leaf.
    pub fn leaf_page(&self, ordinal: PageOrdinal) -> (r: Result<PagePin, Error>)
        ensures
            match r {
                Ok(pin) => pin.spec_ordinal() == ordinal && self.pins(pin) && self.checked(pin)
                    && node::page_kind(pin@) == NodeKind::Leaf && node::page_ok(pin@),
                Err(e) => self.fault_at(ordinal, e) && (self.spec_store().excused(e) || !self.spec_store().steady()
                    || !self.sound_leaf(ordinal)),
            },
    {
        let pin = self.tree_page(ordinal)?;
        let kind = {
            let view = pin.parsed()?;
            view.kind()
        };
        if kind != NodeKind::Leaf {
            return Err(
                Error::corrupt("leaf sibling chain points at an internal page").at_page(
                    ordinal.get(),
                ),
            );
        }
        Ok(pin)
    }

    /// Whether a page of the file is a sound leaf.
    pub open spec fn sound_leaf(&self, ordinal: PageOrdinal) -> bool {
        let p = self.spec_store().pages()[ordinal];
        &&& self.spec_store().pages().contains_key(ordinal)
        &&& within::digests_sound(self.spec_encoding(), p)
        &&& node::page_ok(p)
        &&& node::page_kind(p) == NodeKind::Leaf
    }

    /// The sibling of a leaf, against the direction of a walk.
    pub open spec fn link_back(p: Seq<u8>, ascending: bool) -> Option<PageOrdinal> {
        if ascending {
            node::page_left(p)
        } else {
            node::page_right(p)
        }
    }

    /// The sibling of a leaf, in the direction of a walk.
    pub open spec fn link_on(p: Seq<u8>, ascending: bool) -> Option<PageOrdinal> {
        if ascending {
            node::page_right(p)
        } else {
            node::page_left(p)
        }
    }

    /// Steps from one leaf to the next along the chain, checking that the page stepped
    /// into points back at the one stepped from.
    ///
    /// The chain is doubly linked, and a walk that follows one direction alone cannot
    /// tell a chain that skips a page from one that does not: the pages it does visit
    /// are in order and it ends where the tree ends, so it hands back part of the table
    /// as though it were all of it. The page it arrives at is loaded either way, so
    /// looking at the link it came by costs nothing.
    pub fn step_sibling(&self, from: PageOrdinal, to: PageOrdinal, ascending: bool) -> (r: Result<
        PagePin,
        Error,
    >)
        ensures
            match r {
                Ok(pin) => pin.spec_ordinal() == to && self.pins(pin) && self.checked(pin)
                    && node::page_kind(pin@) == NodeKind::Leaf && node::page_ok(pin@)
                    && Tree::link_back(pin@, ascending) == Some(from),
                Err(e) => self.fault_at(to, e) && (self.spec_store().excused(e) || !self.spec_store().steady()
                    || !(self.sound_leaf(to) && Tree::link_back(
                    self.spec_store().pages()[to],
                    ascending,
                ) == Some(from))),
            },
    {
        let pin = self.leaf_page(to)?;
        let back = {
            let view = pin.parsed()?;
            if ascending {
                view.left_sibling()
            } else {
                view.right_sibling()
            }
        };
        let links = match back {
            Some(b) => b.get() == from.get(),
            None => false,
        };
        if !links {
            return Err(
                Error::corrupt_words(
                    Words::new("leaf page ")
                        .number(to.get())
                        .say(" does not point back at page ")
                        .number(from.get())
                        .say(", so the chain skips a page"),
                ).at_page(to.get()),
            );
        }
        Ok(pin)
    }
}

/// Whether a page has another as a child or as its right neighbour.
pub open spec fn leads_to(p: Seq<u8>, o: PageOrdinal) -> bool {
    ||| exists|i: int|
        0 <= i < node::page_count(p) && (#[trigger] node::internal_entry_at(p, i) matches Some(
            entry,
        ) && entry.child == o)
    ||| node::page_right(p) == Some(o)
}

/// Whether a page names another: as a child, as a neighbour, or as the page of a value.
pub open spec fn names(p: Seq<u8>, o: PageOrdinal) -> bool {
    ||| leads_to(p, o)
    ||| node::page_left(p) == Some(o)
    ||| exists|i: int|
        0 <= i < node::page_count(p) && (#[trigger] node::leaf_entry_at(p, i) matches Some(entry)
            && entry.value == (LeafValue::Overflow { page: o }))
}

/// What a search says: the entry it is after in every tree there is, or that there is none.
pub open spec fn search_result(
    t: &Tree,
    key: Seq<u8>,
    op: SearchOp,
    found: Option<(PagePin, usize)>,
) -> bool {
    match found {
        Some((pin, i)) => {
            &&& t.spec_root() is Some
            &&& t.pins(pin)
            &&& node::page_kind(pin@) == NodeKind::Leaf
            &&& i < node::page_count(pin@)
            &&& op == SearchOp::Equal ==> within::entry_sign(
                t.spec_encoding(),
                pin@,
                i as int,
                key,
            ) == 0
            &&& forall|s: TreeShape, layout: NodeLayout| #[trigger]
                t.holds(s, layout) ==> paths::is_found(
                    s,
                    t.spec_encoding(),
                    key,
                    op,
                    pin.spec_ordinal(),
                    i as int,
                )
        },
        None => forall|s: TreeShape, layout: NodeLayout| #[trigger]
            t.holds(s, layout) ==> paths::no_row(s, t.spec_encoding(), key, op),
    }
}

impl Tree {
    /// What the leaf a search is at says of every tree there is.
    proof fn lemma_leaf(
        &self,
        key: Seq<u8>,
        op: SearchOp,
        o: PageOrdinal,
        taken: int,
        found: Option<usize>,
    )
        requires
            self.spec_encoding().inner.accepts(key),
            self.searching(key, op, o, taken),
            0 <= taken,
            forall|layout: NodeLayout, keys: Seq<Seq<u8>>| #[trigger]
                within::ordered(
                    self.spec_encoding(),
                    layout,
                    self.spec_store().pages()[o],
                    keys,
                ) ==> within::is_hit(self.spec_encoding(), keys, key, op, found),
        ensures
            found matches Some(i) ==> forall|s: TreeShape, layout: NodeLayout| #[trigger]
                self.holds(s, layout) ==> paths::is_found(
                    s,
                    self.spec_encoding(),
                    key,
                    op,
                    o,
                    i as int,
                ),
            found is None && op == SearchOp::Equal ==> forall|s: TreeShape, layout: NodeLayout|
                #[trigger]
                self.holds(s, layout) ==> paths::no_row(s, self.spec_encoding(), key, op),
            found is None && op != SearchOp::Equal ==> {
                let p = self.spec_store().pages()[o];
                match node::page_right(p) {
                    None => forall|s: TreeShape, layout: NodeLayout| #[trigger]
                        self.holds(s, layout) ==> paths::no_row(s, self.spec_encoding(), key, op)
                            && (s.rows.len() > 0 ==> paths::leaf_at(s, o, s.levels[0].len() - 1)),
                    Some(right) => self.searching(key, op, right, taken + 1) && forall|
                        s: TreeShape,
                        layout: NodeLayout,
                    | #[trigger]
                        self.holds(s, layout) ==> self.sound_leaf(right) && node::page_left(
                            self.spec_store().pages()[right],
                        ) == Some(o) && taken < self.spec_store().file().section.count,
                }
            },
    {
        let e = self.spec_encoding();
        let pages = self.spec_store().pages();
        let root = self.spec_root()->Some_0;
        if let Some(i) = found {
            assert forall|s: TreeShape, layout: NodeLayout| #[trigger]
                self.holds(s, layout) implies paths::is_found(s, e, key, op, o, i as int) by {
                let j = choose|j: int| #[trigger]
                    paths::searching_at(s, e, key, op, o, j) && taken <= j;
                paths::lemma_node_ordered(s, e, layout, pages, root, 0, j);
                paths::lemma_hit(s, e, layout, pages, root, key, op, o, j, i);
            }
        } else if op == SearchOp::Equal {
            assert forall|s: TreeShape, layout: NodeLayout| #[trigger]
                self.holds(s, layout) implies paths::no_row(s, e, key, op) by {
                let j = choose|j: int| #[trigger]
                    paths::searching_at(s, e, key, op, o, j) && taken <= j;
                paths::lemma_node_ordered(s, e, layout, pages, root, 0, j);
                paths::lemma_miss(s, e, layout, pages, root, key, o, j);
            }
        } else {
            match node::page_right(pages[o]) {
                None => {
                    assert forall|s: TreeShape, layout: NodeLayout| #[trigger]
                        self.holds(s, layout) implies paths::no_row(s, e, key, op) && (s.rows.len()
                        > 0 ==> paths::leaf_at(s, o, s.levels[0].len() - 1)) by {
                        let j = choose|j: int| #[trigger]
                            paths::searching_at(s, e, key, op, o, j) && taken <= j;
                        paths::lemma_node_ordered(s, e, layout, pages, root, 0, j);
                        paths::lemma_pass(s, e, layout, pages, root, key, op, o, j);
                    }
                },
                Some(right) => {
                    assert forall|s: TreeShape, layout: NodeLayout| #[trigger]
                        self.holds(s, layout) implies self.searching_in(s, key, op, right, taken + 1)
                        && self.sound_leaf(right) && node::page_left(pages[right]) == Some(o)
                        && taken < self.spec_store().file().section.count by {
                        let j = choose|j: int| #[trigger]
                            paths::searching_at(s, e, key, op, o, j) && taken <= j;
                        paths::lemma_node_ordered(s, e, layout, pages, root, 0, j);
                        paths::lemma_pass(s, e, layout, pages, root, key, op, o, j);
                        assert(paths::searching_at(s, e, key, op, right, j + 1) && taken + 1 <= j
                            + 1);
                        paths::lemma_node_ordered(s, e, layout, pages, root, 0, j + 1);
                        paths::lemma_leaf_count(
                            s,
                            e,
                            layout,
                            pages,
                            root,
                            self.spec_store().file().section.count,
                        );
                    }
                },
            }
        }
    }

    /// A page that cannot be searched is not a page of a tree.
    proof fn lemma_unordered(&self, key: Seq<u8>, op: SearchOp, o: PageOrdinal, taken: int)
        requires
            self.searching(key, op, o, taken),
            forall|layout: NodeLayout, keys: Seq<Seq<u8>>|
                !#[trigger] within::ordered(
                    self.spec_encoding(),
                    layout,
                    self.spec_store().pages()[o],
                    keys,
                ),
        ensures
            forall|s: TreeShape, layout: NodeLayout| !#[trigger] self.holds(s, layout),
    {
        let e = self.spec_encoding();
        assert forall|s: TreeShape, layout: NodeLayout| !#[trigger] self.holds(s, layout) by {
            if self.holds(s, layout) {
                let j = choose|j: int| #[trigger]
                    paths::searching_at(s, e, key, op, o, j) && taken <= j;
                paths::lemma_node_ordered(
                    s,
                    e,
                    layout,
                    self.spec_store().pages(),
                    self.spec_root()->Some_0,
                    0,
                    j,
                );
            }
        }
    }

    /// Descends and resolves `op`, walking right when the bound is not satisfied on the
    /// leaf the descent reached.
    ///
    /// The walk continues rather than stopping at the first sibling: a run of equal keys
    /// can span several leaves, and then the first entry of the next leaf does not
    /// satisfy the bound either. It is limited by the number of pages in the file, so a
    /// cyclic sibling chain is reported instead of followed.
    ///
    /// An exact search normally stops on the leaf the descent reached, because that is
    /// the only leaf the key can be on. It walks too when the descent had to settle for
    /// an earlier child, and then stops as soon as a leaf ends at or above the key.
    pub fn search(&self, key: &[u8], op: SearchOp) -> (r: Result<
        Option<(PagePin, usize)>,
        Error,
    >)
        ensures
            match r {
                Ok(found) => self.spec_encoding().inner.accepts(key@) && search_result(
                    self,
                    key@,
                    op,
                    found,
                ) && (found is None ==> if op == SearchOp::Equal {
                    self.missed(key@)
                } else {
                    self.ran_dry(true)
                }),
                Err(e) => self.key_failure(key@, e),
            },
    {
        let key_digest = self.digest_of(key)?;
        let (first, conservative) = match self.descend(key, key_digest)? {
            Some(leaf) => leaf,
            None => return Ok(None),
        };
        let mut pin = first;
        proof {
            assert(self.searching(key@, op, pin.spec_ordinal(), 0));
        }
        let mut steps_left: u64 = self.store.page_count().saturating_add(1);
        let ghost mut taken: int = 0;
        loop
            invariant
                self.spec_encoding().inner.accepts(key@),
                key_digest == self.spec_encoding().inner.digest_of(key@),
                self.spec_root() is Some,
                self.pins(pin),
                node::page_kind(pin@) == NodeKind::Leaf,
                conservative ==> forall|s: TreeShape, layout: NodeLayout|
                    !#[trigger] self.holds(s, layout),
                conservative || self.searching(key@, op, pin.spec_ordinal(), taken),
                0 <= taken,
                steps_left + taken >= self.spec_store().file().section.count,
            decreases steps_left,
        {
            let ordinal = pin.ordinal();
            let view = match pin.parsed() {
                Ok(view) => view,
                Err(e) => {
                    proof {
                        if !conservative {
                            self.lemma_unordered(key@, op, ordinal, taken);
                        }
                    }
                    return Err(e);
                },
            };
            let hit = match within::leaf_search(&self.encoding, &view, key, key_digest, op) {
                Ok(hit) => hit,
                Err(e) => {
                    proof {
                        if !conservative {
                            self.lemma_unordered(key@, op, ordinal, taken);
                        }
                    }
                    return Err(e);
                },
            };
            proof {
                if !conservative {
                    self.lemma_leaf(key@, op, ordinal, taken, hit);
                }
            }
            match hit {
                Some(index) => return Ok(Some((pin, index))),
                None => {},
            }
            proof {
                if op == SearchOp::Equal {
                    assert(self.lacks_on(key@, ordinal));
                }
            }
            if op == SearchOp::Equal {
                if !conservative {
                    return Ok(None);
                }
                if !within::ends_below(&self.encoding, &view, key, key_digest)? {
                    return Ok(None);
                }
            }
            let right = match view.right_sibling() {
                Some(right) => right,
                None => {
                    // Nothing further right. Either the tree ends on this leaf and no entry
                    // satisfies the bound, or the chain stops short and an empty result
                    // would stand in for the entries beyond the break.
                    if !self.ends_at(ordinal, true)? {
                        return Err(
                            Error::corrupt_number(
                                "the leaf chain stops at page ",
                                ordinal.get(),
                                " but the tree does not end there",
                            ).at_page(ordinal.get()),
                        );
                    }
                    proof {
                        assert(self.linked(ordinal, true, None));
                    }
                    return Ok(None);
                },
            };
            if steps_left == 0 {
                return Err(
                    Error::corrupt(
                        "leaf sibling chain visits more pages than the file contains; it is cyclic",
                    ),
                );
            }
            steps_left -= 1;
            proof {
                assert(leads_to(pin@, right));
                self.lemma_knows(ordinal, right);
            }
            let next = match self.step_sibling(ordinal, right, true) {
                Ok(next) => next,
                Err(e) => return Err(e),
            };
            pin = next;
            proof {
                taken = taken + 1;
            }
        }
    }

    /// Point lookup.
    pub fn find(&self, key: &[u8]) -> (r: Result<Option<(PagePin, usize)>, Error>)
        ensures
            match r {
                Ok(found) => self.spec_encoding().inner.accepts(key@) && search_result(
                    self,
                    key@,
                    SearchOp::Equal,
                    found,
                ) && (found is None ==> self.missed(key@)),
                Err(e) => self.key_failure(key@, e),
            },
    {
        self.search(key, SearchOp::Equal)
    }

    /// Looks for the key along cached leaves, from the leaf a descent reached.
    fn find_along(
        &self,
        first: PagePin,
        key: &[u8],
        key_digest: u64,
        conservative: bool,
    ) -> (r: Result<Option<Option<(PagePin, usize)>>, Error>)
        requires
            self.spec_encoding().inner.accepts(key@),
            key_digest == self.spec_encoding().inner.digest_of(key@),
            self.pins(first),
            node::page_kind(first@) == NodeKind::Leaf,
            conservative ==> forall|s: TreeShape, layout: NodeLayout|
                !#[trigger] self.holds(s, layout),
            self.searching(key@, SearchOp::Equal, first.spec_ordinal(), 0),
            self.spec_root() is Some,
        ensures
            match r {
                Ok(Some(found)) => search_result(self, key@, SearchOp::Equal, found) && (found
                    is None ==> self.missed(key@)),
                Ok(None) => self.stopped(key@),
                Err(e) => self.failure(e),
            },
    {
        let op = SearchOp::Equal;
        let mut pin = first;
        let mut steps_left: u64 = self.store.page_count().saturating_add(1);
        let ghost mut at_first = true;
        loop
            invariant
                op == SearchOp::Equal,
                self.spec_root() is Some,
                self.spec_encoding().inner.accepts(key@),
                key_digest == self.spec_encoding().inner.digest_of(key@),
                self.pins(pin),
                conservative ==> forall|s: TreeShape, layout: NodeLayout|
                    !#[trigger] self.holds(s, layout),
                at_first ==> node::page_kind(pin@) == NodeKind::Leaf && self.searching(
                    key@,
                    op,
                    pin.spec_ordinal(),
                    0,
                ),
                !at_first ==> conservative,
            decreases steps_left,
        {
            let ordinal = pin.ordinal();
            let view = match pin.parsed() {
                Ok(view) => view,
                Err(e) => {
                    proof {
                        if at_first {
                            self.lemma_unordered(key@, op, ordinal, 0);
                        }
                    }
                    return Err(e);
                },
            };
            if view.kind() != NodeKind::Leaf {
                return Err(
                    Error::corrupt("leaf sibling chain points at an internal page").at_page(
                        ordinal.get(),
                    ),
                );
            }
            let hit = match within::leaf_search(&self.encoding, &view, key, key_digest, op) {
                Ok(hit) => hit,
                Err(e) => {
                    proof {
                        if at_first {
                            self.lemma_unordered(key@, op, ordinal, 0);
                        }
                    }
                    return Err(e);
                },
            };
            proof {
                if at_first {
                    self.lemma_leaf(key@, op, ordinal, 0, hit);
                }
            }
            match hit {
                Some(index) => return Ok(Some(Some((pin, index)))),
                None => {},
            }
            proof {
                assert(self.lacks_on(key@, ordinal));
            }
            if !conservative {
                return Ok(Some(None));
            }
            if !within::ends_below(&self.encoding, &view, key, key_digest)? {
                return Ok(Some(None));
            }
            let right = match view.right_sibling() {
                Some(right) => right,
                None => return Ok(Some(None)),
            };
            if steps_left == 0 {
                return Err(
                    Error::corrupt(
                        "leaf sibling chain visits more pages than the file contains; it is cyclic",
                    ),
                );
            }
            steps_left -= 1;
            let next = match self.store.page_cached(right) {
                Some(next) => next,
                None => {
                    proof {
                        self.lemma_stopped(key@, 0, ordinal, right);
                    }
                    return Ok(None);
                },
            };
            self.check_page(&next)?;
            pin = next;
            proof {
                at_first = false;
            }
        }
    }

    /// Point lookup against cached pages only.
    ///
    /// Returns `Ok(None)` when a page on the path is not cached, which the caller has to
    /// tell apart from "the key is not there".
    pub fn find_cached(&self, key: &[u8]) -> (r: Result<
        Option<Option<(PagePin, usize)>>,
        Error,
    >)
        ensures
            match r {
                Ok(Some(found)) => search_result(self, key@, SearchOp::Equal, found) && (found
                    is None ==> self.missed(key@)),
                Ok(None) => self.stopped(key@),
                Err(e) => self.spec_root() is Some && self.key_failure(key@, e),
            },
    {
        if self.root.is_none() {
            return Ok(Some(None));
        }
        let key_digest = self.digest_of(key)?;
        let cached = self.root_page_cached()?;
        proof {
            let root = self.spec_root()->Some_0;
            assert(self.path(key@, 0, root)) by {
                assert forall|s: TreeShape, layout: NodeLayout| #[trigger]
                    self.holds(s, layout) implies paths::on_path(
                    s,
                    self.spec_encoding(),
                    key@,
                    0,
                    root,
                ) by {
                    paths::lemma_path_starts(s, self.spec_encoding(), key@);
                }
            }
        }
        let mut pin = match cached {
            Some(pin) => pin,
            None => return Ok(None),
        };
        let mut ordinal = pin.ordinal();
        let mut conservative = false;
        let max_depth = self.store.limits().max_tree_depth;
        proof {
            assert(self.path(key@, 0, ordinal)) by {
                assert forall|s: TreeShape, layout: NodeLayout| #[trigger]
                    self.holds(s, layout) implies paths::on_path(
                    s,
                    self.spec_encoding(),
                    key@,
                    0,
                    ordinal,
                ) by {
                    paths::lemma_path_starts(s, self.spec_encoding(), key@);
                }
            }
        }
        // Counted per page read on the way down, leaf included, the same way `descend`
        // counts: the two have to agree about which trees are too deep to search. Only the
        // way down counts against the depth. Stepping right across leaves is a different
        // walk with its own bound.
        let mut depth: usize = 0;
        while depth < max_depth
            invariant
                self.spec_root() is Some,
                self.spec_encoding().inner.accepts(key@),
                key_digest == self.spec_encoding().inner.digest_of(key@),
                max_depth == self.spec_store().spec_limits().max_tree_depth,
                depth <= max_depth,
                self.pins(pin),
                ordinal == pin.spec_ordinal(),
                self.path(key@, depth as int, ordinal),
                conservative ==> forall|s: TreeShape, layout: NodeLayout|
                    !#[trigger] self.holds(s, layout),
            decreases max_depth - depth,
        {
            let view = match pin.parsed() {
                Ok(view) => view,
                Err(e) => {
                    proof {
                        self.lemma_parses(key@, depth as int, ordinal);
                    }
                    return Err(e);
                },
            };
            if view.kind() == NodeKind::Leaf {
                proof {
                    self.lemma_starts(key@, depth as int, ordinal);
                    assert(self.searching(key@, SearchOp::Equal, ordinal, 0));
                }
                return self.find_along(pin, key, key_digest, conservative);
            }
            let (child, inexact) = match self.step_down(
                &view,
                ordinal,
                key,
                key_digest,
                Ghost(depth as int),
            ) {
                Ok(step) => step,
                Err(e) => return Err(e),
            };
            conservative = conservative || inexact;
            depth += 1;
            if depth < max_depth {
                let next = match self.store.page_cached(child) {
                    Some(next) => next,
                    None => {
                        proof {
                            self.lemma_stopped(key@, depth as int, ordinal, child);
                        }
                        return Ok(None);
                    },
                };
                match self.check_page(&next) {
                    Ok(_) => {},
                    Err(e) => {
                        proof {
                            self.lemma_loads(key@, depth as int, child);
                        }
                        return Err(e);
                    },
                }
                pin = next;
                ordinal = child;
            } else {
                proof {
                    self.lemma_too_deep(key@, depth as int, child);
                }
                return Err(self.too_deep());
            }
        }
        proof {
            self.lemma_too_deep(key@, depth as int, ordinal);
        }
        Err(self.too_deep())
    }

    /// The buffer a rebuilt key needs, so a caller can reserve it before the rebuild
    /// writes into it.
    ///
    /// An encoding that does not say refuses the page rather than allocating first and
    /// finding out afterwards, which is the one thing the memory budget cannot cover.
    pub fn rebuilt_key_capacity(&self) -> (r: Result<usize, Error>)
        ensures
            match r {
                Ok(n) => self.spec_encoding().inner.rebuilt_len() == Some(n),
                Err(e) => self.spec_encoding().inner.rebuilt_len() is None && e.is_corrupt(),
            },
    {
        match self.encoding.inner.max_rebuilt_key_len() {
            Some(n) => Ok(n),
            None => Err(
                Error::corrupt_words(
                    Words::new("page omits key bytes but encoding `")
                        .say(self.encoding.inner.id())
                        .say("` does not say how large a rebuilt key can be; implement `KeyEncoding::max_rebuilt_key_len`"),
                ),
            ),
        }
    }

    /// Writes the key of a leaf entry into `buf` when the page omits key bytes.
    ///
    /// Returns `true` when the key was rebuilt into `buf`, `false` when the caller
    /// should read it straight from the page.
    pub fn rebuild_key(&self, view: &PageView<'_>, index: usize, buf: &mut Vec<u8>) -> (r: Result<
        bool,
        Error,
    >)
        ensures
            match r {
                Ok(rebuilt) => {
                    &&& rebuilt == node::page_layout(view.page()).omitted_keys
                    &&& rebuilt ==> index < node::page_count(view.page())
                        && self.spec_encoding().inner.rebuilt(
                        node::page_digests(view.page())[index as int],
                    ) == Some(final(buf)@)
                    &&& !rebuilt ==> final(buf)@ == old(buf)@
                },
                Err(e) => e.is_corrupt() && node::page_layout(view.page()).omitted_keys && (index
                    >= node::page_count(view.page()) || self.spec_encoding().inner.rebuilt(
                    node::page_digests(view.page())[index as int],
                ) is None),
            },
    {
        if !view.layout().omitted_keys {
            return Ok(false);
        }
        let digest = match view.digest_at(index) {
            Ok(digest) => digest,
            Err(e) => return Err(e),
        };
        match self.encoding.inner.decode_key_from_digest(digest, buf) {
            Ok(_) => Ok(true),
            Err(e) => Err(
                Error::corrupt_words(
                    Words::new("page omits key bytes and encoding `")
                        .say(self.encoding.inner.id())
                        .say("` cannot rebuild them: ")
                        .say(e.to_text().as_str()),
                ),
            ),
        }
    }
}

/// The value that a leaf entry of a page stands for, when it stands for one.
pub open spec fn entry_value(store: &PageStore, p: Seq<u8>, entry: LeafEntry) -> Option<Seq<u8>> {
    match entry.value {
        LeafValue::Inline { offset, len } => if offset + len <= p.len() {
            Some(p.subrange(offset as int, offset + len))
        } else {
            None
        },
        LeafValue::Overflow { page } => if store.is_blob(page) {
            Some(
                store.pages()[page].subrange(
                    PAGE_PREFIX_LEN as int,
                    store.pages()[page].len() as int,
                ),
            )
        } else {
            None
        },
    }
}

/// Resolves a leaf entry's value into a page pin plus a byte range.
pub fn resolve_value(store: &PageStore, leaf: &PagePin, entry: &LeafEntry) -> (r: Result<
    (PagePin, Range<usize>),
    Error,
>)
    requires
        entry.value matches LeafValue::Inline { offset, len } ==> offset + len <= leaf@.len(),
    ensures
        match r {
            Ok((pin, range)) => {
                &&& range.start <= range.end <= pin@.len()
                &&& entry_value(store, leaf@, *entry) == Some(
                    pin@.subrange(range.start as int, range.end as int),
                )
                &&& pin == *leaf || pin.paid(store.spec_budget())
            },
            Err(e) => entry.value matches LeafValue::Overflow { page } && (store.failure(
                page,
                e,
                store.pages().contains_key(page),
            ) || e.is_corrupt() && entry_value(store, leaf@, *entry) is None),
        },
{
    match entry.value {
        LeafValue::Inline { offset, len } => {
            let held = leaf.len();
            Ok((leaf.clone(), Range { start: offset, end: offset + len }))
        },
        LeafValue::Overflow { page } => {
            let (pin, range) = store.blob(page)?;
            proof {
                assert(node::page_ok(pin@));
            }
            Ok((pin, range))
        },
    }
}

/// Resolves a leaf entry's value, but only if every page it needs is already cached.
pub fn resolve_value_cached(store: &PageStore, leaf: &PagePin, entry: &LeafEntry) -> (r: Result<
    Option<(PagePin, Range<usize>)>,
    Error,
>)
    requires
        entry.value matches LeafValue::Inline { offset, len } ==> offset + len <= leaf@.len(),
    ensures
        match r {
            Ok(Some((pin, range))) => {
                &&& range.start <= range.end <= pin@.len()
                &&& entry_value(store, leaf@, *entry) == Some(
                    pin@.subrange(range.start as int, range.end as int),
                )
                &&& pin == *leaf || pin.paid(store.spec_budget())
            },
            Ok(None) => entry.value matches LeafValue::Overflow { page } && store.not_cached(page),
            Err(e) => e.is_corrupt() && entry_value(store, leaf@, *entry) is None,
        },
{
    match entry.value {
        LeafValue::Inline { offset, len } => {
            let held = leaf.len();
            Ok(Some((leaf.clone(), Range { start: offset, end: offset + len })))
        },
        LeafValue::Overflow { page } => match store.page_cached(page) {
            None => Ok(None),
            // Resolve through the pin we already hold: asking the store for the page
            // again could find it evicted and read it, which this path promises not to
            // do.
            Some(pin) => {
                let (pin, range) = store.blob_from_pin(pin)?;
                proof {
                    assert(node::page_ok(pin@));
                }
                Ok(Some((pin, range)))
            },
        },
    }
}

} // verus!
