//! Walking the internal levels of a tree.

use vstd::prelude::*;

use super::chain::{self, check_page_digests, walk_page, LowerChain, Separator};
use super::report::Reporter;
use super::sound;
use crate::btree::{paths, Tree};
use crate::budget::{self, Charge, BUFFER_OVERHEAD};
use crate::encoding::{KeyEncoding, KeyOrder, SharedEncoding};
use crate::error::{Error, Words};
use crate::format::node::{self, NodeKind, NodeLayout, PageView};
use crate::format::PageOrdinal;
use crate::model::{self, Pages, TreeShape};
use crate::query::cursor::charge_at_least;
use crate::query::range::copied;

verus! {

broadcast use crate::format::group_format;

/// The key before the one a walk is at.
///
/// One key is kept to compare the next one against, and a key is as long as a caller made
/// it, so the copy is reserved before it grows.
pub struct Previous {
    key: Option<Vec<u8>>,
    charge: Charge,
}

impl Previous {
    /// The key, once there is one.
    pub closed spec fn spec_key(&self) -> Option<Seq<u8>> {
        match self.key {
            Some(k) => Some(k@),
            None => None,
        }
    }

    /// Whether the copy is paid from the budget of a tree's store.
    pub closed spec fn paid(&self, tree: &Tree) -> bool {
        self.charge.owner() == tree.spec_store().spec_budget()
    }

    /// No key yet.
    pub fn new(tree: &Tree) -> (r: Result<Previous, Error>)
        ensures
            match r {
                Ok(p) => p.spec_key() is None && p.paid(tree),
                Err(_) => false,
            },
    {
        match tree.store().reserve(0) {
            Ok(charge) => Ok(Previous { key: None, charge }),
            Err(e) => Err(e),
        }
    }

    /// Forgets the key, keeping what was reserved for it.
    pub fn forget(&mut self, Ghost(tree): Ghost<&Tree>)
        requires
            old(self).paid(tree),
        ensures
            final(self).spec_key() is None,
            final(self).paid(tree),
    {
        self.key = None;
    }

    /// Remembers a key.
    pub fn remember(&mut self, tree: &Tree, key: &[u8]) -> (r: Result<(), Error>)
        requires
            old(self).paid(tree),
        ensures
            final(self).paid(tree),
            match r {
                Ok(_) => final(self).spec_key() == Some(key@),
                Err(e) => tree.spec_store().short_of(
                    budget::capped(key@.len() + BUFFER_OVERHEAD),
                    e,
                ),
            },
    {
        match charge_at_least(tree, &mut self.charge, key.len()) {
            Ok(_) => {},
            Err(e) => return Err(e),
        }
        self.key = Some(copied(key));
        Ok(())
    }

    /// How the key compares with another, once there is one.
    pub fn order(&self, encoding: &SharedEncoding, key: &[u8]) -> (r: Option<
        Result<KeyOrder, Error>,
    >)
        ensures
            match r {
                None => self.spec_key() is None,
                Some(o) => self.spec_key() is Some && match o {
                    Ok(o) => encoding.inner.accepts(self.spec_key()->Some_0)
                        && encoding.inner.accepts(key@) && o == KeyOrder::of_sign(
                        encoding.inner.sign(self.spec_key()->Some_0, key@),
                    ),
                    Err(e) => !(encoding.inner.accepts(self.spec_key()->Some_0)
                        && encoding.inner.accepts(key@)) && !e.is_resource(),
                },
            },
    {
        match &self.key {
            None => None,
            Some(k) => Some(encoding.order(k.as_slice(), key)),
        }
    }
}

/// Whether a key sorts above the one before it.
pub open spec fn above(e: SharedEncoding, before: Option<Seq<u8>>, key: Seq<u8>) -> bool {
    before matches Some(k) ==> e.inner.sign(k, key) < 0
}

/// Whether a key and the one before it can be compared, and it sorts above.
pub open spec fn plainly_above(e: SharedEncoding, before: Option<Seq<u8>>, key: Seq<u8>) -> bool {
    before matches Some(k) ==> e.inner.accepts(k) && e.inner.accepts(key) && e.inner.sign(k, key)
        < 0
}

/// Whether the entry is the next child of the chain below.
pub open spec fn next_child(
    tree: &Tree,
    count: int,
    lower: &LowerChain,
    before: Option<Seq<u8>>,
    o: PageOrdinal,
    i: int,
) -> bool {
    let pages = tree.spec_store().pages();
    let p = pages[o];
    &&& sound::child_ok(tree.spec_encoding(), pages, count, o, i)
    &&& !lower.spec_broken()
    &&& lower.spec_steps() > 0
    &&& lower.spec_seen().len() > 0 ==> lower.spec_current() == Some(sound::children(p)[i])
    &&& !node::page_layout(p).omitted_keys ==> plainly_above(
        tree.spec_encoding(),
        before,
        node::entry_key_at(p, i),
    )
}

/// Checks one entry of an internal page.
fn check_child(
    tree: &Tree,
    view: &PageView<'_>,
    ordinal: PageOrdinal,
    i: usize,
    page_count: u64,
    lower: &mut LowerChain,
    previous: &mut Previous,
    reporter: &mut Reporter,
) -> (r: Result<PageOrdinal, Error>)
    requires
        old(reporter).paid(),
        old(reporter).covers(tree),
        old(previous).paid(tree),
        old(lower).ok(tree.spec_store().pages()),
        tree.spec_store().pages().contains_key(ordinal),
        tree.spec_store().pages()[ordinal] == view.page(),
        node::page_kind(view.page()) == NodeKind::Internal,
        node::entries_ok(view.page()),
        i < node::page_count(view.page()),
    ensures
        Reporter::grew(old(reporter), final(reporter)),
        Reporter::same_counts(old(reporter), final(reporter)),
        final(previous).paid(tree),
        final(lower).ok(tree.spec_store().pages()),
        old(lower).spec_broken() ==> final(lower).spec_broken(),
        final(lower).spec_broken() && !old(lower).spec_broken() ==> !Reporter::quiet(
            old(reporter),
            final(reporter),
        ),
        next_child(
            tree,
            page_count as int,
            old(lower),
            old(previous).spec_key(),
            ordinal,
            i as int,
        ) && tree.spec_store().steady() ==> {
            &&& Reporter::calm(old(reporter), final(reporter))
            &&& r is Ok && final(reporter).spec_failure() is None ==> {
                &&& !final(lower).spec_broken()
                &&& final(lower).spec_steps() == old(lower).spec_steps() - 1
                &&& final(lower).spec_seen() == old(lower).spec_seen().push(
                    sound::children(view.page())[i as int],
                )
            }
        },
        match r {
            Ok(child) => {
                let p = view.page();
                &&& child == sound::children(p)[i as int]
                &&& final(previous).spec_key() == (if node::page_layout(p).omitted_keys {
                    old(previous).spec_key()
                } else {
                    Some(node::entry_key_at(p, i as int))
                })
                &&& Reporter::quiet(old(reporter), final(reporter)) && !old(lower).spec_broken()
                    ==> {
                    &&& sound::child_ok(
                        tree.spec_encoding(),
                        tree.spec_store().pages(),
                        page_count as int,
                        ordinal,
                        i as int,
                    )
                    &&& final(lower).spec_seen() == old(lower).spec_seen().push(child)
                    &&& !node::page_layout(p).omitted_keys ==> above(
                        tree.spec_encoding(),
                        old(previous).spec_key(),
                        node::entry_key_at(p, i as int),
                    )
                }
            },
            Err(e) => tree.walk_denied(e),
        },
{
    let ghost p = view.page();
    let ghost pages = tree.spec_store().pages();
    let ghost r0 = *reporter;
    proof {
        Reporter::lemma_same(reporter);
        assert(node::entry_ok(p, i as int));
    }
    let entry = match view.internal_entry(i) {
        Ok(entry) => entry,
        Err(e) => {
            proof {
                assert(false);
            }
            return Err(e);
        },
    };
    let key = match view.internal_key(&entry) {
        Ok(key) => key,
        Err(e) => {
            proof {
                assert(false);
            }
            return Err(e);
        },
    };
    let omitted = view.layout().omitted_keys;
    let ghost child = entry.child;
    proof {
        assert(child == sound::children(p)[i as int]);
        assert(key@ == node::entry_key_at(p, i as int));
        node::lemma_digest_count(p);
    }
    // A child that is not a page of this file turns a search into an error rather than a
    // wrong answer, so it belongs in the report even though the walk never loads it here.
    if entry.child.get() >= page_count {
        reporter.problem_words(
            ordinal,
            Words::new("child ")
                .number(i as u64)
                .say(" is page ")
                .number(entry.child.get())
                .say(" but the file has ")
                .number(page_count)
                .say(" pages"),
        );
    } else if entry.child.get() == ordinal.get() {
        proof {
            assert(PageOrdinal::spec_new(entry.child.get()) == entry.child);
            assert(PageOrdinal::spec_new(ordinal.get()) == ordinal);
        }
        reporter.problem_words(
            ordinal,
            Words::new("child ")
                .number(i as u64)
                .say(" points at this page"),
        );
    } else {
        let separator = if omitted {
            match view.digest_at(i) {
                Ok(digest) => Some(Separator::Digest(digest)),
                Err(e) => {
                    reporter.failed_with(
                        Some(
                            ordinal.get(
                                )),
                                Words::new("entry ")
                                    .number(i as u64), e);
                    None
                },
            }
        } else {
            Some(Separator::Key(key))
        };
        if let Some(separator) = separator {
            proof {
                assert(separator.of(p, i as int));
            }
            lower.expect(tree, entry.child, ordinal, separator, reporter);
        }
    }
    if omitted {
        return Ok(entry.child);
    }
    let ghost r1 = *reporter;
    match previous.order(tree.encoding(), key) {
        None => {},
        Some(Ok(KeyOrder::Less)) => {},
        Some(Ok(_)) => {
            reporter.problem_words(
                ordinal,
                Words::new("separator ")
                    .number(i as u64)
                    .say(" does not sort above the previous one"),
            );
        },
        Some(Err(e)) => {
            reporter.failed_with(Some(ordinal.get()), Words::new("separator ").number(i as u64), e);
        },
    }
    proof {
        if *reporter == r1 {
            Reporter::lemma_same(reporter);
        }
        Reporter::lemma_quiet(&r0, &r1, reporter);
    }
    match previous.remember(tree, key) {
        Ok(_) => Ok(entry.child),
        Err(e) => {
            proof {
                tree.lemma_key_denied(ordinal, i as int, e);
            }
            Err(e)
        },
    }
}

/// Whether this is the last of the keys.
pub open spec fn is_last(key: Option<Seq<u8>>, keys: Seq<Seq<u8>>) -> bool {
    key == (if keys.len() == 0 {
        None
    } else {
        Some(keys.last())
    })
}

/// Whether the walk of level `k` of a held tree is past the first `n` children of the level.
pub open spec fn at_child(
    s: TreeShape,
    layout: NodeLayout,
    k: int,
    lower: &LowerChain,
    keys: Seq<Seq<u8>>,
    n: int,
) -> bool {
    &&& !lower.spec_broken()
    &&& 0 <= n <= s.levels[k - 1].len()
    &&& lower.spec_seen() == Seq::new(n as nat, |q: int| s.levels[k - 1][q].ordinal)
    &&& lower.spec_steps() >= s.levels[k - 1].len() - n
    &&& keys == (if layout.omitted_keys {
        Seq::empty()
    } else {
        Seq::new(n as nat, |q: int| s.key_below(k, q))
    })
}

/// Whether every page is one the file has a place for.
pub open spec fn counted(pages: Pages, count: int) -> bool {
    forall|o: PageOrdinal| #[trigger] pages.contains_key(o) ==> o.get() < count
}

/// The children of a held tree are the chain of the level below.
proof fn lemma_next_child(
    tree: &Tree,
    s: TreeShape,
    layout: NodeLayout,
    count: int,
    k: int,
    j: int,
    c: int,
    lower: &LowerChain,
    keys: Seq<Seq<u8>>,
    before: Option<Seq<u8>>,
)
    requires
        tree.holds(s, layout),
        counted(tree.spec_store().pages(), count),
        0 < k < s.levels.len(),
        0 <= j < s.levels[k].len(),
        0 <= c < s.levels[k][j].count,
        at_child(s, layout, k, lower, keys, s.levels[k][j].first + c),
        lower.ok(tree.spec_store().pages()),
        is_last(before, keys),
    ensures
        next_child(tree, count, lower, before, s.levels[k][j].ordinal, c),
        sound::children(tree.spec_store().pages()[s.levels[k][j].ordinal])[c]
            == s.levels[k - 1][s.levels[k][j].first + c].ordinal,
        node::page_layout(tree.spec_store().pages()[s.levels[k][j].ordinal]) == layout,
        !layout.omitted_keys ==> node::entry_key_at(
            tree.spec_store().pages()[s.levels[k][j].ordinal],
            c,
        ) == s.key_below(k, s.levels[k][j].first + c),
{
    let e = tree.spec_encoding();
    let pages = tree.spec_store().pages();
    let root = tree.spec_root()->Some_0;
    let n = s.levels[k][j];
    let o = n.ordinal;
    let p = pages[o];
    let below = n.first + c;
    let m = s.levels[k - 1][below];
    assert(!s.is_hollow());
    paths::lemma_node_ordered(s, e, layout, pages, root, k, j);
    paths::lemma_node_ordered(s, e, layout, pages, root, k - 1, below);
    paths::lemma_no_self_child(s, e, layout, pages, root, k, j, c);
    assert(model::node_ok(s, e, layout, pages, k, j));
    assert(model::node_ok(s, e, layout, pages, k - 1, below));
    let q = pages[m.ordinal];
    let (up, down) = (model::node_keys(s, k, j), model::node_keys(s, k - 1, below));
    assert(node::internal_entry_at(p, c) is Some);
    assert(up[c] == s.key_below(k, below));
    assert(down[0] == s.key_below(k - 1, m.first));
    assert(up[c] == down[0]);
    assert(node::page_digests(p)[c] == e.inner.digest_of(up[c]));
    assert(node::page_digests(q)[0] == e.inner.digest_of(down[0]));
    if !layout.omitted_keys {
        assert(node::entry_key_at(p, c) == up[c]);
        assert(node::entry_key_at(q, 0) == down[0]);
    }
    assert(sound::child_ok(e, pages, count, o, c));
    lower.lemma_ok(pages);
    if below > 0 {
        assert(lower.spec_seen().last() == s.levels[k - 1][below - 1].ordinal);
        assert(model::node_ok(s, e, layout, pages, k - 1, below - 1));
        if !layout.omitted_keys {
            assert(keys.last() == s.key_below(k, below - 1));
            lemma_keys_below(s, e, k, below - 1, below);
        }
    }
}

/// The keys below a level ascend.
proof fn lemma_keys_below(s: TreeShape, e: SharedEncoding, k: int, a: int, b: int)
    requires
        s.is_tree(),
        !s.is_hollow(),
        model::sorted_rows(e, s.rows),
        0 < k < s.levels.len(),
        0 <= a < b < s.levels[k - 1].len(),
    ensures
        e.inner.sign(s.key_below(k, a), s.key_below(k, b)) < 0,
        e.inner.accepts(s.key_below(k, a)),
        e.inner.accepts(s.key_below(k, b)),
{
    model::lemma_first_keys_ascend(s, e, k - 1, a, b);
}

/// Checks the entries of an internal page. Returns whether to go on.
fn check_children(
    tree: &Tree,
    view: &PageView<'_>,
    ordinal: PageOrdinal,
    page_count: u64,
    lower: &mut LowerChain,
    previous: &mut Previous,
    first_child: &mut Option<PageOrdinal>,
    reporter: &mut Reporter,
    Ghost(keys): Ghost<Seq<Seq<u8>>>,
    Ghost(held): Ghost<Option<(TreeShape, NodeLayout, int, int)>>,
) -> (r: Result<bool, Error>)
    requires
        old(reporter).paid(),
        old(reporter).covers(tree),
        old(previous).paid(tree),
        is_last(old(previous).spec_key(), keys),
        old(lower).ok(tree.spec_store().pages()),
        tree.spec_store().pages().contains_key(ordinal),
        tree.spec_store().pages()[ordinal] == view.page(),
        node::page_kind(view.page()) == NodeKind::Internal,
        node::entries_ok(view.page()),
        node::page_count(view.page()) > 0,
        held matches Some((s, layout, k, j)) ==> {
            &&& tree.holds(s, layout)
            &&& tree.spec_store().steady()
            &&& counted(tree.spec_store().pages(), page_count as int)
            &&& 0 < k < s.levels.len()
            &&& 0 <= j < s.levels[k].len()
            &&& ordinal == s.levels[k][j].ordinal
            &&& at_child(s, layout, k, old(lower), keys, s.levels[k][j].first)
        },
    ensures
        Reporter::grew(old(reporter), final(reporter)),
        Reporter::same_counts(old(reporter), final(reporter)),
        final(previous).paid(tree),
        final(lower).ok(tree.spec_store().pages()),
        old(lower).spec_broken() ==> final(lower).spec_broken(),
        final(lower).spec_broken() && !old(lower).spec_broken() ==> !Reporter::quiet(
            old(reporter),
            final(reporter),
        ),
        held is Some ==> Reporter::calm(old(reporter), final(reporter)),
        match r {
            Ok(true) => {
                let p = view.page();
                &&& is_last(final(previous).spec_key(), keys + sound::stored_keys(p))
                &&& *final(first_child) == (match *old(first_child) {
                    Some(o) => Some(o),
                    None => Some(sound::children(p)[0]),
                })
                &&& Reporter::quiet(old(reporter), final(reporter)) && !old(lower).spec_broken()
                    ==> {
                    &&& forall|i: int|
                        0 <= i < node::page_count(p) ==> #[trigger] sound::child_ok(
                            tree.spec_encoding(),
                            tree.spec_store().pages(),
                            page_count as int,
                            ordinal,
                            i,
                        )
                    &&& final(lower).spec_seen() == old(lower).spec_seen() + sound::children(p)
                    &&& sound::keys_ascend(tree.spec_encoding(), keys) ==> sound::keys_ascend(
                        tree.spec_encoding(),
                        keys + sound::stored_keys(p),
                    )
                }
                &&& final(reporter).spec_failure() is None ==> (held matches Some((s, layout, k, j))
                    ==> at_child(
                    s,
                    layout,
                    k,
                    final(lower),
                    keys + sound::stored_keys(p),
                    s.levels[k][j].first + s.levels[k][j].count,
                ))
            },
            Ok(false) => final(reporter).is_full(),
            Err(e) => tree.walk_denied(e),
        },
{
    let ghost e = tree.spec_encoding();
    let ghost pages = tree.spec_store().pages();
    let ghost p = view.page();
    let ghost r0 = *reporter;
    let ghost seen0 = lower.spec_seen();
    let ghost lower0 = *lower;
    let ghost first0 = *first_child;
    let ghost here = sound::stored_keys(p);
    let ghost omitted = node::page_layout(p).omitted_keys;
    let count = view.entry_count();
    let mut i: usize = 0;
    let ghost mut now = keys;
    proof {
        Reporter::lemma_same(reporter);
        assert(seen0 + sound::children(p).subrange(0, 0) =~= seen0);
        if let Some((s, layout, k, j)) = held {
            paths::lemma_node_ordered(s, e, layout, pages, tree.spec_root()->Some_0, k, j);
        }
    }
    while i < count
        invariant
            i <= count,
            count == node::page_count(p),
            count > 0,
            e == tree.spec_encoding(),
            pages == tree.spec_store().pages(),
            p == view.page(),
            here == sound::stored_keys(p),
            omitted == node::page_layout(p).omitted_keys,
            r0 == *old(reporter),
            lower0 == *old(lower),
            seen0 == lower0.spec_seen(),
            first0 == *old(first_child),
            pages.contains_key(ordinal),
            pages[ordinal] == p,
            node::page_kind(p) == NodeKind::Internal,
            node::entries_ok(p),
            Reporter::grew(&r0, reporter),
            reporter.covers(tree),
            Reporter::same_counts(&r0, reporter),
            previous.paid(tree),
            is_last(previous.spec_key(), now),
            now == (if omitted {
                keys
            } else {
                keys + here.subrange(0, i as int)
            }),
            lower.ok(pages),
            lower0.spec_broken() ==> lower.spec_broken(),
            lower.spec_broken() && !lower0.spec_broken() ==> !Reporter::quiet(&r0, reporter),
            *first_child == (if first0 is Some || i == 0 {
                first0
            } else {
                Some(sound::children(p)[0])
            }),
            Reporter::quiet(&r0, reporter) && !lower0.spec_broken() ==> {
                &&& forall|c: int|
                    0 <= c < i ==> #[trigger] sound::child_ok(
                        e,
                        pages,
                        page_count as int,
                        ordinal,
                        c,
                    )
                &&& lower.spec_seen() == seen0 + sound::children(p).subrange(0, i as int)
                &&& sound::keys_ascend(e, keys) ==> sound::keys_ascend(e, now)
            },
            held matches Some((s, layout, k, j)) ==> {
                &&& tree.holds(s, layout)
                &&& tree.spec_store().steady()
                &&& counted(pages, page_count as int)
                &&& 0 < k < s.levels.len()
                &&& 0 <= j < s.levels[k].len()
                &&& ordinal == s.levels[k][j].ordinal
                &&& count == s.levels[k][j].count
                &&& 0 <= s.levels[k][j].first
                &&& s.levels[k][j].first + count <= s.levels[k - 1].len()
                &&& node::page_layout(p) == layout
                &&& Reporter::calm(&r0, reporter)
                &&& reporter.spec_failure() is None ==> at_child(
                    s,
                    layout,
                    k,
                    lower,
                    now,
                    s.levels[k][j].first + i,
                )
            },
        decreases count - i,
    {
        if reporter.full() {
            return Ok(false);
        }
        let ghost r1 = *reporter;
        let ghost lower1 = *lower;
        let ghost was = now;
        proof {
            if let Some((s, layout, k, j)) = held {
                lemma_next_child(
                    tree,
                    s,
                    layout,
                    page_count as int,
                    k,
                    j,
                    i as int,
                    lower,
                    now,
                    previous.spec_key(),
                );
            }
        }
        let checked = check_child(
            tree,
            view,
            ordinal,
            i,
            page_count,
            lower,
            previous,
            reporter,
        );
        proof {
            Reporter::lemma_quiet(&r0, &r1, reporter);
        }
        let child = match checked {
            Ok(child) => child,
            Err(e) => return Err(e),
        };
        if first_child.is_none() {
            *first_child = Some(child);
        }
        proof {
            let c = i as int;
            let all = sound::children(p);
            assert(all.subrange(0, c + 1) =~= all.subrange(0, c).push(all[c]));
            if !omitted {
                assert(here[c] == node::entry_key_at(p, c));
                assert(here.subrange(0, c + 1) =~= here.subrange(0, c).push(here[c]));
                now = keys + here.subrange(0, c + 1);
                assert(now =~= was.push(here[c]));
            }
            assert(seen0 + all.subrange(0, c + 1) =~= (seen0 + all.subrange(0, c)).push(all[c]));
            if Reporter::quiet(&r0, reporter) && !lower0.spec_broken() && sound::keys_ascend(
                e,
                keys,
            ) {
                assert forall|x: int| 1 <= x < now.len() implies #[trigger] sound::key_step(
                    e,
                    now,
                    x,
                ) by {
                    if x < was.len() {
                        assert(sound::key_step(e, was, x));
                        assert(now[x] == was[x] && now[x - 1] == was[x - 1]);
                    }
                }
            }
            if let Some((s, layout, k, j)) = held {
                if reporter.spec_failure() is None {
                    let n = s.levels[k][j].first + c;
                    assert(lower.spec_seen() =~= Seq::new(
                        (n + 1) as nat,
                        |q: int| s.levels[k - 1][q].ordinal,
                    ));
                    if !layout.omitted_keys {
                        assert(now =~= Seq::new((n + 1) as nat, |q: int| s.key_below(k, q)));
                    }
                }
            }
        }
        i += 1;
    }
    proof {
        assert(sound::children(p).subrange(0, i as int) =~= sound::children(p));
        assert(now =~= keys + here) by {
            if !omitted {
                assert(here.subrange(0, i as int) =~= here);
            }
        }
    }
    Ok(true)
}

/// Whether the first pages of a level are sound and linked to each other.
pub open spec fn level_front(e: SharedEncoding, pages: Pages, count: int, l: Seq<PageOrdinal>) -> bool {
    &&& chain::linked(pages, l)
    &&& forall|i: int| 0 <= i < l.len() ==> #[trigger] sound::left_ok(pages, l, i)
    &&& forall|i: int| 0 <= i < l.len() ==> #[trigger] sound::internal_ok(e, pages, count, l[i])
    &&& sound::keys_ascend(e, sound::level_keys(pages, l))
}

/// One more page of a level.
proof fn lemma_level_push(
    e: SharedEncoding,
    pages: Pages,
    count: int,
    l: Seq<PageOrdinal>,
    o: PageOrdinal,
)
    requires
        level_front(e, pages, count, l),
        sound::internal_ok(e, pages, count, o),
        node::page_left(pages[o]) == (if l.len() == 0 {
            None
        } else {
            Some(l.last())
        }),
        l.len() > 0 ==> node::page_right(pages[l.last()]) == Some(o),
        sound::keys_ascend(
            e,
            sound::level_keys(pages, l) + sound::stored_keys(pages[o]),
        ),
    ensures
        level_front(e, pages, count, l.push(o)),
        sound::child_list(pages, l.push(o)) == sound::child_list(pages, l) + sound::children(
            pages[o],
        ),
{
    let m = l.push(o);
    assert(m.drop_last() =~= l);
    assert forall|i: int| 0 <= i < m.len() implies #[trigger] sound::left_ok(pages, m, i) by {
        if i < l.len() {
            assert(sound::left_ok(pages, l, i));
            assert(m[i] == l[i]);
            assert(i > 0 ==> m[i - 1] == l[i - 1]);
        }
    }
    assert forall|i: int| 0 <= i < m.len() - 1 implies #[trigger] sound::right_ok(pages, m, i) by {
        if i < l.len() - 1 {
            assert(sound::right_ok(pages, l, i));
            assert(m[i] == l[i] && m[i + 1] == l[i + 1]);
        }
    }
    assert forall|i: int| 0 <= i < m.len() implies #[trigger] sound::internal_ok(
        e,
        pages,
        count,
        m[i],
    ) by {
        if i < l.len() {
            assert(sound::internal_ok(e, pages, count, l[i]));
        }
    }
}

/// Whether a whole level was walked and is sound, and its children are a whole chain.
pub open spec fn level_walked(
    e: SharedEncoding,
    pages: Pages,
    count: int,
    start: PageOrdinal,
    l: Seq<PageOrdinal>,
    next: PageOrdinal,
) -> bool {
    let c = sound::child_list(pages, l);
    &&& l.len() > 0
    &&& l[0] == start
    &&& sound::level_ok(e, pages, count, l)
    &&& c.len() > 0
    &&& c[0] == next
    &&& chain::linked(pages, c)
    &&& node::page_right(pages[c.last()]) is None
}

/// What is known of a level about to be walked, when the tree is known to be held: where it
/// starts, and that there are steps enough.
#[verifier::opaque]
pub open spec fn level_hope(
    tree: &Tree,
    count: int,
    held: Option<(TreeShape, NodeLayout, int)>,
    start: PageOrdinal,
    steps: int,
) -> bool {
    held matches Some((s, layout, k)) ==> {
        &&& tree.holds(s, layout)
        &&& tree.spec_store().steady()
        &&& counted(tree.spec_store().pages(), count)
        &&& 0 < k < s.levels.len()
        &&& start == s.levels[k][0].ordinal
        &&& steps >= s.levels[k].len()
        &&& count >= s.levels[k - 1].len()
    }
}

/// Walks one internal level along its sibling chain, matching it with the level below.
/// Returns where the level below starts, or `None` when the walk cannot go on.
fn walk_level(
    tree: &Tree,
    level_start: PageOrdinal,
    page_count: u64,
    steps_left: &mut u64,
    previous: &mut Previous,
    reporter: &mut Reporter,
    Ghost(held): Ghost<Option<(TreeShape, NodeLayout, int)>>,
) -> (r: Result<Option<PageOrdinal>, Error>)
    requires
        old(reporter).paid(),
        old(reporter).covers(tree),
        old(previous).paid(tree),
        level_hope(tree, page_count as int, held, level_start, *old(steps_left) as int),
        held is Some ==> !old(reporter).is_full(),
    ensures
        Reporter::grew(old(reporter), final(reporter)),
        Reporter::same_counts(old(reporter), final(reporter)),
        final(previous).paid(tree),
        held is Some ==> Reporter::calm(old(reporter), final(reporter)),
        match r {
            Ok(Some(next)) => {
                &&& Reporter::quiet(old(reporter), final(reporter)) ==> exists|l: Seq<PageOrdinal>|
                    #[trigger] level_walked(
                        tree.spec_encoding(),
                        tree.spec_store().pages(),
                        page_count as int,
                        level_start,
                        l,
                        next,
                    )
                &&& final(reporter).spec_failure() is None ==> (held matches Some((s, layout, k))
                    ==> next == s.levels[k - 1][0].ordinal && *final(steps_left) == *old(steps_left)
                    - s.levels[k].len())
            },
            Ok(None) => !Reporter::quiet(old(reporter), final(reporter)) && (held is Some
                ==> final(reporter).spec_failure() is Some),
            Err(e) => tree.walk_denied(e),
        },
{
    let ghost e = tree.spec_encoding();
    let ghost pages = tree.spec_store().pages();
    let ghost r0 = *reporter;
    let ghost steps0 = *steps_left as int;
    let ghost mut l = Seq::<PageOrdinal>::empty();
    let mut first_child: Option<PageOrdinal> = None;
    let mut lower = LowerChain::new(page_count.saturating_add(1));
    let mut current = Some(level_start);
    let mut expected_left: Option<PageOrdinal> = None;
    previous.forget(Ghost(tree));
    proof {
        reveal(level_hope);
        Reporter::lemma_same(reporter);
        if let Some((s, layout, k)) = held {
            paths::lemma_levels_filled(s, k);
            paths::lemma_node_ordered(s, e, layout, pages, tree.spec_root()->Some_0, k, 0);
            assert(!s.is_hollow());
            assert(s.tiled(k));
            assert(lower.spec_seen() =~= Seq::new(0, |q: int| s.levels[k - 1][q].ordinal));
            assert(sound::level_keys(pages, l) =~= Seq::new(0, |q: int| s.key_below(k, q)));
        }
    }
    while current.is_some()
        invariant
            e == tree.spec_encoding(),
            pages == tree.spec_store().pages(),
            r0 == *old(reporter),
            steps0 == *old(steps_left),
            Reporter::grew(&r0, reporter),
            reporter.covers(tree),
            Reporter::same_counts(&r0, reporter),
            previous.paid(tree),
            is_last(previous.spec_key(), sound::level_keys(pages, l)),
            lower.ok(pages),
            l.len() == 0 ==> current == Some(level_start) && first_child is None,
            l.len() > 0 ==> l[0] == level_start && pages.contains_key(l.last()) && current
                == node::page_right(pages[l.last()]) && first_child is Some,
            expected_left == (if l.len() == 0 {
                None
            } else {
                Some(l.last())
            }),
            *steps_left == steps0 - l.len(),
            Reporter::quiet(&r0, reporter) ==> {
                &&& !lower.spec_broken()
                &&& lower.spec_seen() == sound::child_list(pages, l)
                &&& level_front(e, pages, page_count as int, l)
                &&& l.len() > 0 ==> sound::child_list(pages, l).len() > 0 && first_child == Some(
                    sound::child_list(pages, l)[0],
                )
            },
            held matches Some((s, layout, k)) ==> {
                &&& tree.holds(s, layout)
                &&& tree.spec_store().steady()
                &&& counted(pages, page_count as int)
                &&& 0 < k < s.levels.len()
                &&& !s.is_hollow()
                &&& s.tiled(k)
                &&& level_start == s.levels[k][0].ordinal
                &&& steps0 >= s.levels[k].len()
                &&& Reporter::calm(&r0, reporter)
                &&& reporter.spec_failure() is None
                &&& !reporter.is_full()
                &&& l.len() <= s.levels[k].len()
                &&& current == (if l.len() < s.levels[k].len() {
                    Some(s.levels[k][l.len() as int].ordinal)
                } else {
                    None
                })
                &&& l.len() > 0 ==> l.last() == s.levels[k][l.len() - 1].ordinal && first_child
                    == Some(s.levels[k - 1][0].ordinal)
                &&& at_child(
                    s,
                    layout,
                    k,
                    &lower,
                    sound::level_keys(pages, l),
                    if l.len() < s.levels[k].len() {
                        s.levels[k][l.len() as int].first
                    } else {
                        s.levels[k - 1].len() as int
                    },
                )
            },
        decreases *steps_left,
    {
        let ordinal = current.unwrap();
        let ghost r1 = *reporter;
        let ghost at = l.len() as int;
        if reporter.full() {
            return Ok(None);
        }
        if *steps_left == 0 {
            reporter.problem(
                Some(ordinal.get()),
                "the internal sibling chain visits more pages than the file contains",
            );
            proof {
                Reporter::lemma_quiet(&r0, &r1, reporter);
            }
            return Ok(None);
        }
        *steps_left = *steps_left - 1;
        let ghost p = pages[ordinal];
        proof {
            if let Some((s, layout, k)) = held {
                paths::lemma_node_ordered(s, e, layout, pages, tree.spec_root()->Some_0, k, at);
                assert(model::node_ok(s, e, layout, pages, k, at));
                assert(s.run_ok(k, at));
            }
        }
        let pin = match walk_page(tree, ordinal, reporter) {
            Some(pin) => pin,
            None => {
                proof {
                    Reporter::lemma_quiet(&r0, &r1, reporter);
                }
                return Ok(None);
            },
        };
        proof {
            tree.spec_store().lemma_pages_sound(ordinal);
        }
        let view = match pin.parsed() {
            Ok(v) => v,
            Err(e) => {
                reporter.failed(Some(ordinal.get()), e);
                proof {
                    Reporter::lemma_quiet(&r0, &r1, reporter);
                }
                return Ok(None);
            },
        };
        match view.kind() {
            NodeKind::Internal => {},
            NodeKind::Leaf => {
                reporter.problem(Some(ordinal.get()), "an internal level reaches a leaf page");
                proof {
                    Reporter::lemma_quiet(&r0, &r1, reporter);
                }
                return Ok(None);
            },
        }
        if view.entry_count() == 0 {
            reporter.problem(Some(ordinal.get()), "internal page has no children");
            proof {
                Reporter::lemma_quiet(&r0, &r1, reporter);
            }
            return Ok(None);
        }
        if !same_ordinal(view.left_sibling(), expected_left) {
            reporter.problem_words(
                ordinal,
                Words::new("left sibling is ")
                    .page(view.left_sibling())
                    .say(" but the previous page was ")
                    .page(expected_left),
            );
        }
        let ghost r2 = *reporter;
        check_page_digests(tree, &view, ordinal, reporter);
        let ghost r3 = *reporter;
        let ghost keys = sound::level_keys(pages, l);
        let ghost lower0 = lower;
        proof {
            if r2 == r1 {
                Reporter::lemma_same(&r1);
            }
            Reporter::lemma_quiet(&r0, &r1, &r2);
            Reporter::lemma_quiet(&r0, &r2, &r3);
        }
        let ghost node_held = match held {
            Some((s, layout, k)) => Some((s, layout, k, at)),
            None => None,
        };
        let checked = check_children(
            tree,
            &view,
            ordinal,
            page_count,
            &mut lower,
            previous,
            &mut first_child,
            reporter,
            Ghost(keys),
            Ghost(node_held),
        );
        proof {
            Reporter::lemma_quiet(&r0, &r3, reporter);
            Reporter::lemma_quiet(&r2, &r3, reporter);
            Reporter::lemma_quiet(&r1, &r2, reporter);
        }
        match checked {
            Ok(true) => {},
            Ok(false) => return Ok(None),
            Err(e) => return Err(e),
        }
        let ghost was = l;
        proof {
            assert(was.push(ordinal).drop_last() =~= was);
            if Reporter::quiet(&r0, reporter) {
                assert(sound::internal_ok(e, pages, page_count as int, ordinal));
                lemma_level_push(e, pages, page_count as int, was, ordinal);
                assert(sound::children(p).len() > 0);
            }
            l = was.push(ordinal);
            if let Some((s, layout, k)) = held {
                paths::lemma_node_ordered(s, e, layout, pages, tree.spec_root()->Some_0, k, at);
                model::lemma_tiles_inside(s, k, at);
            }
        }
        if reporter.stopped() {
            return Ok(None);
        }
        expected_left = Some(ordinal);
        current = view.right_sibling();
        proof {
            if let Some((s, layout, k)) = held {
                if at == 0 {
                    assert(s.levels[k][0].first == 0);
                    assert(sound::children(p)[0] == s.levels[k - 1][0].ordinal) by {
                        assert(model::node_ok(s, e, layout, pages, k, 0));
                        assert(node::internal_entry_at(p, 0) is Some);
                    }
                }
            }
        }
    }
    let ghost r4 = *reporter;
    lower.finish(reporter);
    proof {
        Reporter::lemma_quiet(&r0, &r4, reporter);
        if Reporter::quiet(&r0, reporter) {
            lower.lemma_ok(pages);
            assert forall|i: int| 0 <= i < l.len() implies #[trigger] sound::right_ok(
                pages,
                l,
                i,
            ) by {
                if i < l.len() - 1 {
                    assert(sound::right_ok(pages, l, i));
                }
            }
            assert(sound::chain_ok(pages, l));
            assert(level_walked(
                e,
                pages,
                page_count as int,
                level_start,
                l,
                first_child->Some_0,
            ));
        }
        if let Some((s, layout, k)) = held {
            lower.lemma_ok(pages);
            let n = s.levels[k - 1].len() as int;
            paths::lemma_levels_filled(s, k - 1);
            assert(lower.spec_seen().last() == s.levels[k - 1][n - 1].ordinal);
            assert(model::node_ok(s, e, layout, pages, k - 1, n - 1));
        }
    }
    match first_child {
        Some(next) => Ok(Some(next)),
        None => {
            reporter.problem(Some(level_start.get()), "no child to descend into");
            Ok(None)
        },
    }
}

/// Whether two siblings are the same page, or neither is there.
pub fn same_ordinal(a: Option<PageOrdinal>, b: Option<PageOrdinal>) -> (r: bool)
    ensures
        r == (a == b),
{
    match (a, b) {
        (Some(x), Some(y)) => {
            proof {
                assert(PageOrdinal::spec_new(x.get()) == x);
                assert(PageOrdinal::spec_new(y.get()) == y);
            }
            x.get() == y.get()
        },
        (None, None) => true,
        _ => false,
    }
}

/// Whether a list is a whole sibling chain.
pub open spec fn whole_chain(pages: Pages, l: Seq<PageOrdinal>) -> bool {
    &&& l.len() > 0
    &&& chain::linked(pages, l)
    &&& node::page_right(pages[l.last()]) is None
}

/// There is one chain from a page.
pub proof fn lemma_chain_unique(pages: Pages, a: Seq<PageOrdinal>, b: Seq<PageOrdinal>)
    requires
        whole_chain(pages, a),
        whole_chain(pages, b),
        a[0] == b[0],
    ensures
        a == b,
{
    let n = if a.len() <= b.len() {
        a.len() as int
    } else {
        b.len() as int
    };
    assert forall|i: int| 0 <= i < n implies a[i] == b[i] by {
        lemma_chain_step(pages, a, b, i, n);
    }
    if a.len() < b.len() {
        assert(sound::right_ok(pages, b, n - 1));
    } else if b.len() < a.len() {
        assert(sound::right_ok(pages, a, n - 1));
    }
    assert(a =~= b);
}

proof fn lemma_chain_step(
    pages: Pages,
    a: Seq<PageOrdinal>,
    b: Seq<PageOrdinal>,
    i: int,
    n: int,
)
    requires
        chain::linked(pages, a),
        chain::linked(pages, b),
        n <= a.len(),
        n <= b.len(),
        0 <= i < n,
        a[0] == b[0],
    ensures
        a[i] == b[i],
    decreases i,
{
    if i > 0 {
        lemma_chain_step(pages, a, b, i - 1, n);
        assert(sound::right_ok(pages, a, i - 1));
        assert(sound::right_ok(pages, b, i - 1));
    }
}

/// Whether these are the internal levels of a sound tree, and the level below them starts at
/// `next`.
pub open spec fn levels_walked(
    e: SharedEncoding,
    pages: Pages,
    count: int,
    root: PageOrdinal,
    levels: Seq<Seq<PageOrdinal>>,
    next: PageOrdinal,
) -> bool {
    &&& forall|d: int|
        0 <= d < levels.len() ==> sound::level_ok(e, pages, count, #[trigger] levels[d])
    &&& forall|d: int|
        1 <= d < levels.len() ==> #[trigger] levels[d] == sound::child_list(pages, levels[d - 1])
    &&& if levels.len() == 0 {
        next == root
    } else {
        &&& levels[0] == seq![root]
        &&& sound::child_list(pages, levels.last()).len() > 0
        &&& sound::child_list(pages, levels.last())[0] == next
        &&& whole_chain(pages, sound::child_list(pages, levels.last()))
    }
}

/// One more level.
proof fn lemma_levels_push(
    e: SharedEncoding,
    pages: Pages,
    count: int,
    root: PageOrdinal,
    levels: Seq<Seq<PageOrdinal>>,
    start: PageOrdinal,
    l: Seq<PageOrdinal>,
    next: PageOrdinal,
)
    requires
        levels_walked(e, pages, count, root, levels, start),
        level_walked(e, pages, count, start, l, next),
        levels.len() == 0 ==> node::page_right(pages[root]) is None,
    ensures
        levels_walked(e, pages, count, root, levels.push(l), next),
{
    let m = levels.push(l);
    assert(sound::right_ok(pages, l, l.len() - 1));
    assert(whole_chain(pages, l)) by {
        assert forall|i: int| 0 <= i < l.len() - 1 implies #[trigger] sound::right_ok(
            pages,
            l,
            i,
        ) by {}
    }
    if levels.len() == 0 {
        assert(sound::right_ok(pages, l, 0));
        assert(l =~= seq![root]);
    } else {
        lemma_chain_unique(pages, l, sound::child_list(pages, levels.last()));
    }
    assert forall|d: int| 1 <= d < m.len() implies #[trigger] m[d] == sound::child_list(
        pages,
        m[d - 1],
    ) by {
        if d < levels.len() {
            assert(levels[d] == sound::child_list(pages, levels[d - 1]));
            assert(m[d] == levels[d] && m[d - 1] == levels[d - 1]);
        } else {
            assert(m[d - 1] == levels.last());
        }
    }
    assert forall|d: int| 0 <= d < m.len() implies sound::level_ok(
        e,
        pages,
        count,
        #[trigger] m[d],
    ) by {
        if d < levels.len() {
            assert(m[d] == levels[d]);
        }
    }
}

/// Looks at the first page of a level. Returns whether it is a leaf, or `None` when the page
/// cannot be read.
fn look_at(
    tree: &Tree,
    ordinal: PageOrdinal,
    is_root: bool,
    reporter: &mut Reporter,
) -> (r: Option<bool>)
    requires
        old(reporter).paid(),
        old(reporter).covers(tree),
    ensures
        Reporter::grew(old(reporter), final(reporter)),
        Reporter::same_counts(old(reporter), final(reporter)),
        ({
            let pages = tree.spec_store().pages();
            let p = pages[ordinal];
            match r {
                Some(is_leaf) => {
                    &&& pages.contains_key(ordinal)
                    &&& is_leaf == (node::page_kind(p) == NodeKind::Leaf)
                    &&& Reporter::quiet(old(reporter), final(reporter)) && is_root
                        ==> node::page_left(p) is None && node::page_right(p) is None
                    &&& (is_root ==> node::page_left(p) is None && node::page_right(p) is None)
                        ==> *final(reporter) == *old(reporter)
                },
                None => {
                    &&& !Reporter::quiet(old(reporter), final(reporter))
                    &&& pages.contains_key(ordinal) && tree.spec_store().steady()
                        ==> Reporter::calm(old(reporter), final(reporter))
                        && final(reporter).spec_failure() is Some
                },
            }
        }),
{
    let ghost r0 = *reporter;
    proof {
        Reporter::lemma_same(reporter);
    }
    let pin = match walk_page(tree, ordinal, reporter) {
        Some(pin) => pin,
        None => return None,
    };
    proof {
        tree.spec_store().lemma_pages_sound(ordinal);
    }
    let view = match pin.parsed() {
        Ok(view) => view,
        Err(e) => {
            reporter.failed(Some(ordinal.get()), e);
            return None;
        },
    };
    // A search starts at the root and can only go down and to the right of where it lands,
    // so a root with a page beside it is a tree whose other pages no search reaches. Every
    // other check passes on such a file: the levels below it are intact, they are just not
    // all under this root.
    if is_root && (view.left_sibling().is_some() || view.right_sibling().is_some()) {
        reporter.problem(
            Some(ordinal.get()),
            "the root has a sibling, so part of the tree is below no root",
        );
    }
    match view.kind() {
        NodeKind::Leaf => Some(true),
        NodeKind::Internal => Some(false),
    }
}

/// How many steps the levels below leave.
proof fn lemma_steps(s: TreeShape, k: int)
    requires
        0 < k < s.levels.len(),
    ensures
        s.levels[k].len() <= sound::nodes_in(s, k + 1) - s.levels[0].len(),
        s.levels[k - 1].len() <= nodes_total(s),
        sound::nodes_in(s, k + 1) - s.levels[k].len() == sound::nodes_in(s, k),
{
    sound::lemma_nodes_part(s, 1, k);
    sound::lemma_nodes_part(s, k, s.levels.len() as int);
    sound::lemma_nodes_part(s, 0, k - 1);
    reveal_with_fuel(sound::nodes_in, 3);
    assert(sound::nodes_in(s, 1) == s.levels[0].len());
}

/// Whether these are the internal levels of a sound tree, not deeper than a tree may be, and
/// the leaves start at `leaf`.
#[verifier::opaque]
pub open spec fn leaves_start(
    tree: &Tree,
    levels: Seq<Seq<PageOrdinal>>,
    leaf: PageOrdinal,
) -> bool {
    let p = tree.spec_store().pages()[leaf];
    &&& tree.spec_root() is Some
    &&& levels_walked(
        tree.spec_encoding(),
        tree.spec_store().pages(),
        tree.spec_store().file().section.count,
        tree.spec_root()->Some_0,
        levels,
        leaf,
    )
    &&& levels.len() + 1 <= tree.spec_store().spec_limits().max_tree_depth
    &&& levels.len() == 0 ==> node::page_left(p) is None && node::page_right(p) is None
}

/// Whether the leaves of a tree, sound above them, start at `leaf`.
pub open spec fn reached(tree: &Tree, leaf: PageOrdinal) -> bool {
    exists|levels: Seq<Seq<PageOrdinal>>| #[trigger] leaves_start(tree, levels, leaf)
}

/// Walks every internal level of the tree and returns where the leaf chain starts.
///
/// Levels are walked through their sibling chains, so a page that no search on this file
/// happens to descend into is still read and checked. Each level is also matched against
/// the children the level above declares, which is what finds a chain cut short or a
/// child reference that points at the wrong page.
///
/// Returns `None` when the tree is empty or the walk could not reach the leaf level.
pub fn verify_internal_levels(
    tree: &Tree,
    previous: &mut Previous,
    reporter: &mut Reporter,
    Ghost(held): Ghost<Option<(TreeShape, NodeLayout)>>,
) -> (r: Result<Option<PageOrdinal>, Error>)
    requires
        old(reporter).paid(),
        old(reporter).covers(tree),
        old(previous).paid(tree),
        held matches Some((s, layout)) ==> {
            &&& tree.holds(s, layout)
            &&& tree.spec_store().steady()
            &&& !old(reporter).is_full()
        },
    ensures
        Reporter::grew(old(reporter), final(reporter)),
        Reporter::same_counts(old(reporter), final(reporter)),
        final(previous).paid(tree),
        held is Some ==> Reporter::calm(old(reporter), final(reporter)),
        r matches Ok(Some(leaf)) ==> tree.spec_root() is Some,
        r matches Ok(Some(leaf)) ==> (Reporter::quiet(old(reporter), final(reporter)) ==> reached(
            tree,
            leaf,
        )),
        r matches Ok(Some(leaf)) ==> (held is Some ==> !final(reporter).is_full() && leaf
            == held->Some_0.0.levels[0][0].ordinal),
        tree.spec_root() is None ==> r is Ok && *final(reporter) == *old(reporter),
        r matches Ok(None) ==> {
            ||| tree.spec_root() is None && *final(reporter) == *old(reporter)
            ||| !Reporter::quiet(old(reporter), final(reporter)) && (held is Some
                ==> final(reporter).spec_failure() is Some)
        },
        r matches Err(e) ==> tree.walk_denied(e),
{
    let ghost e = tree.spec_encoding();
    let ghost pages = tree.spec_store().pages();
    let ghost r0 = *reporter;
    proof {
        Reporter::lemma_same(reporter);
    }
    let root = match tree.root() {
        Some(root) => root,
        None => return Ok(None),
    };
    let page_count = tree.store().page_count();
    let mut levels_left = tree.store().limits().max_tree_depth;
    let ghost depth = levels_left as int;
    // A step budget rather than a set of visited pages: a cycle is caught just as well,
    // and the check then costs the same on a file of any size.
    let mut steps_left = page_count.saturating_add(1);
    let mut level_start = root;
    let mut is_root = true;
    let ghost mut levels = Seq::<Seq<PageOrdinal>>::empty();
    proof {
        lemma_hope_start(tree, page_count as int, held, root);
        lemma_trail_start(e, pages, page_count as int, root);
    }
    loop
        invariant
            e == tree.spec_encoding(),
            pages == tree.spec_store().pages(),
            r0 == *old(reporter),
            tree.spec_root() == Some(root),
            page_count == tree.spec_store().file().section.count,
            depth == tree.spec_store().spec_limits().max_tree_depth,
            levels_left == depth - levels.len(),
            Reporter::grew(&r0, reporter),
            reporter.covers(tree),
            Reporter::same_counts(&r0, reporter),
            previous.paid(tree),
            is_root == (levels.len() == 0),
            levels.len() == 0 ==> level_start == root,
            Reporter::quiet(&r0, reporter) ==> trail(
                e,
                pages,
                page_count as int,
                root,
                levels,
                level_start,
            ),
            held is Some ==> !reporter.is_full() && Reporter::calm(&r0, reporter),
            hope(
                tree,
                page_count as int,
                held,
                levels.len() as int,
                level_start,
                steps_left as int,
            ),
        decreases levels_left,
    {
        let ghost r1 = *reporter;
        if reporter.full() {
            return Ok(None);
        }
        proof {
            lemma_hope_look(
                tree,
                page_count as int,
                held,
                levels.len() as int,
                level_start,
                steps_left as int,
            );
        }
        // One page is enough to tell whether this level is the leaf level.
        let is_leaf = match look_at(tree, level_start, is_root, reporter) {
            Some(is_leaf) => is_leaf,
            None => {
                proof {
                    Reporter::lemma_quiet(&r0, &r1, reporter);
                }
                return Ok(None);
            },
        };
        let ghost r2 = *reporter;
        proof {
            Reporter::lemma_quiet(&r0, &r1, &r2);
        }
        // Counted for the leaf level too, because a search counts every page it reads on
        // the way down. A tree that this pass called sound but a search cannot descend is
        // worse than either answer on its own.
        if levels_left == 0 {
            reporter.problem(
                Some(level_start.get()),
                "the tree is deeper than the level limit; a search cannot reach its leaves",
            );
            proof {
                Reporter::lemma_quiet(&r0, &r2, reporter);
            }
            return Ok(None);
        }
        levels_left = levels_left - 1;
        if is_leaf {
            proof {
                if Reporter::quiet(&r0, reporter) {
                    lemma_trail_ends(tree, levels, level_start);
                    assert(reached(tree, level_start));
                }
                if let Some((s, layout)) = held {
                    assert(level_start == s.levels[0][0].ordinal);
                    assert(Reporter::calm(&r0, reporter));
                }
                assert(Reporter::grew(&r0, reporter));
            }
            return Ok(Some(level_start));
        }
        let ghost level_held = match held {
            Some((s, layout)) => Some((s, layout, s.levels.len() - 1 - levels.len())),
            None => None,
        };
        let ghost steps1 = steps_left as int;
        let walked = walk_level(
            tree,
            level_start,
            page_count,
            &mut steps_left,
            previous,
            reporter,
            Ghost(level_held),
        );
        proof {
            Reporter::lemma_quiet(&r0, &r2, reporter);
        }
        match walked {
            Ok(Some(next)) => {
                let ghost start = level_start;
                level_start = next;
                is_root = false;
                proof {
                    lemma_hope_next(
                        tree,
                        page_count as int,
                        held,
                        levels.len() as int,
                        start,
                        steps1,
                        next,
                        steps_left as int,
                        reporter.spec_failure() is None,
                    );
                    let l = if Reporter::quiet(&r0, reporter) {
                        lemma_trail_next(
                            e,
                            pages,
                            page_count as int,
                            root,
                            levels,
                            start,
                            next,
                        )
                    } else {
                        Seq::empty()
                    };
                    levels = levels.push(l);
                }
                if reporter.stopped() {
                    return Ok(None);
                }
            },
            Ok(None) => return Ok(None),
            Err(e) => return Err(e),
        }
    }
}

/// The levels walked so far, top first.
#[verifier::opaque]
spec fn trail(
    e: SharedEncoding,
    pages: Pages,
    count: int,
    root: PageOrdinal,
    levels: Seq<Seq<PageOrdinal>>,
    next: PageOrdinal,
) -> bool {
    levels_walked(e, pages, count, root, levels, next)
}

/// Nothing was walked yet.
proof fn lemma_trail_start(e: SharedEncoding, pages: Pages, count: int, root: PageOrdinal)
    ensures
        trail(e, pages, count, root, Seq::empty(), root),
{
    reveal(trail);
}

/// The walk reached the leaves.
proof fn lemma_trail_ends(tree: &Tree, levels: Seq<Seq<PageOrdinal>>, leaf: PageOrdinal)
    requires
        tree.spec_root() is Some,
        trail(
            tree.spec_encoding(),
            tree.spec_store().pages(),
            tree.spec_store().file().section.count,
            tree.spec_root()->Some_0,
            levels,
            leaf,
        ),
        levels.len() + 1 <= tree.spec_store().spec_limits().max_tree_depth,
        levels.len() == 0 ==> node::page_left(tree.spec_store().pages()[leaf]) is None
            && node::page_right(tree.spec_store().pages()[leaf]) is None,
    ensures
        leaves_start(tree, levels, leaf),
{
    reveal(trail);
    reveal(leaves_start);
}

/// One more level was walked.
proof fn lemma_trail_next(
    e: SharedEncoding,
    pages: Pages,
    count: int,
    root: PageOrdinal,
    levels: Seq<Seq<PageOrdinal>>,
    start: PageOrdinal,
    next: PageOrdinal,
) -> (l: Seq<PageOrdinal>)
    requires
        trail(e, pages, count, root, levels, start),
        exists|l: Seq<PageOrdinal>| #[trigger] level_walked(e, pages, count, start, l, next),
        levels.len() == 0 ==> node::page_right(pages[root]) is None,
    ensures
        trail(e, pages, count, root, levels.push(l), next),
{
    reveal(trail);
    let l = choose|l: Seq<PageOrdinal>| #[trigger] level_walked(e, pages, count, start, l, next);
    lemma_levels_push(e, pages, count, root, levels, start, l, next);
    l
}

/// What is known of the next level, when the tree is known to be held and `done` levels have
/// been walked.
#[verifier::opaque]
spec fn hope(
    tree: &Tree,
    count: int,
    held: Option<(TreeShape, NodeLayout)>,
    done: int,
    start: PageOrdinal,
    steps: int,
) -> bool {
    held matches Some((s, layout)) ==> {
        let k = s.levels.len() - 1 - done;
        &&& tree.holds(s, layout)
        &&& tree.spec_store().steady()
        &&& counted(tree.spec_store().pages(), count)
        &&& 0 <= k < s.levels.len()
        &&& start == s.levels[k][0].ordinal
        &&& nodes_total(s) <= count
        &&& steps >= sound::nodes_in(s, k + 1) - s.levels[0].len()
    }
}

/// A walk of a held tree starts at its root.
proof fn lemma_hope_start(
    tree: &Tree,
    count: int,
    held: Option<(TreeShape, NodeLayout)>,
    root: PageOrdinal,
)
    requires
        held matches Some((s, layout)) ==> tree.holds(s, layout)
            && tree.spec_store().steady(),
        count == tree.spec_store().file().section.count,
        tree.spec_root() == Some(root),
        0 <= count <= u64::MAX,
    ensures
        hope(tree, count, held, 0, root, count),
        hope(tree, count, held, 0, root, count + 1),
{
    reveal(hope);
    let pages = tree.spec_store().pages();
    assert(counted(pages, count)) by {
        assert forall|o: PageOrdinal| #[trigger] pages.contains_key(o) implies o.get() < count by {
            tree.spec_store().lemma_pages_sound(o);
        }
    }
    if let Some((s, layout)) = held {
        sound::lemma_node_count(s, tree.spec_encoding(), layout, pages, root, count);
        sound::lemma_nodes_part(s, 0, s.levels.len() as int);
    }
}

/// What the first page of the next level is.
proof fn lemma_hope_look(
    tree: &Tree,
    count: int,
    held: Option<(TreeShape, NodeLayout)>,
    done: int,
    start: PageOrdinal,
    steps: int,
)
    requires
        hope(tree, count, held, done, start, steps),
        0 <= done,
    ensures
        held matches Some((s, layout)) ==> {
            let pages = tree.spec_store().pages();
            let k = s.levels.len() - 1 - done;
            &&& pages.contains_key(start)
            &&& tree.spec_store().steady()
            &&& done < tree.spec_store().spec_limits().max_tree_depth
            &&& done == 0 ==> node::page_left(pages[start]) is None && node::page_right(
                pages[start],
            ) is None
            &&& node::page_kind(pages[start]) == NodeKind::Leaf ==> start == s.levels[0][0].ordinal
            &&& node::page_kind(pages[start]) != NodeKind::Leaf ==> level_hope(
                tree,
                count,
                Some((s, layout, k)),
                start,
                steps,
            )
        },
        level_hope(tree, count, None, start, steps),
{
    reveal(hope);
    reveal(level_hope);
    if let Some((s, layout)) = held {
        let k = s.levels.len() - 1 - done;
        let e = tree.spec_encoding();
        let pages = tree.spec_store().pages();
        let root = tree.spec_root()->Some_0;
        paths::lemma_levels_filled(s, k);
        paths::lemma_node_ordered(s, e, layout, pages, root, k, 0);
        assert(model::node_ok(s, e, layout, pages, k, 0));
        if k > 0 {
            lemma_steps(s, k);
        }
    }
}

/// The next level of a held tree.
proof fn lemma_hope_next(
    tree: &Tree,
    count: int,
    held: Option<(TreeShape, NodeLayout)>,
    done: int,
    start: PageOrdinal,
    steps: int,
    next: PageOrdinal,
    left: int,
    running: bool,
)
    requires
        hope(tree, count, held, done, start, steps),
        0 <= done,
        running ==> (held matches Some((s, layout)) ==> {
            let k = s.levels.len() - 1 - done;
            next == s.levels[k - 1][0].ordinal && left == steps - s.levels[k].len()
        }),
        held matches Some((s, layout)) ==> node::page_kind(tree.spec_store().pages()[start])
            != NodeKind::Leaf,
    ensures
        running ==> hope(tree, count, held, done + 1, next, left),
{
    reveal(hope);
    if let Some((s, layout)) = held {
        let k = s.levels.len() - 1 - done;
        let e = tree.spec_encoding();
        let pages = tree.spec_store().pages();
        let root = tree.spec_root()->Some_0;
        paths::lemma_levels_filled(s, k);
        paths::lemma_node_ordered(s, e, layout, pages, root, k, 0);
        if k > 0 {
            lemma_steps(s, k);
        }
    }
}

/// How many pages a tree has.
pub open spec fn nodes_total(s: TreeShape) -> int {
    sound::nodes_in(s, s.levels.len() as int)
}

} // verus!
