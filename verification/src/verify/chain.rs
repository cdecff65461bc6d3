//! Matching the children a level declares with the sibling chain below it.

use vstd::prelude::*;
use vstd::string::*;

use super::report::Reporter;
use super::sound;
use crate::btree::within::{self, entry_key};
use crate::btree::Tree;
use crate::encoding::registry::{self, describe_key};
use crate::encoding::{KeyEncoding, SharedEncoding};
use crate::error::{self, Words};
use crate::format::bytes::same_bytes;
use crate::format::node::{self, PageView};
use crate::format::PageOrdinal;
use crate::model::Pages;
use crate::page::PagePin;

verus! {

broadcast use crate::format::group_format;

/// What a parent says one of its children starts at.
#[derive(Clone, Copy)]
pub enum Separator<'a> {
    /// The separator's key bytes, from a page that stores them.
    Key(&'a [u8]),
    /// The separator's digest, from a page that does not.
    Digest(u64),
}

impl<'a> Separator<'a> {
    /// Whether a page starts where the separator says.
    pub open spec fn starts(self, e: SharedEncoding, q: Seq<u8>) -> bool {
        &&& node::page_count(q) > 0
        &&& match self {
            Separator::Key(k) => if node::page_layout(q).omitted_keys {
                e.inner.admits(k@, node::page_digests(q)[0])
            } else {
                k@ == node::entry_key_at(q, 0)
            },
            Separator::Digest(d) => d == node::page_digests(q)[0],
        }
    }

    /// Whether this is the separator of an entry.
    pub open spec fn of(self, p: Seq<u8>, i: int) -> bool {
        match self {
            Separator::Key(k) => !node::page_layout(p).omitted_keys && k@ == node::entry_key_at(
                p,
                i,
            ),
            Separator::Digest(d) => node::page_layout(p).omitted_keys && d == node::page_digests(
                p,
            )[i],
        }
    }
}

/// Loads a page for the walk, reporting a failure rather than stopping the pass.
pub fn walk_page(tree: &Tree, ordinal: PageOrdinal, reporter: &mut Reporter) -> (r: Option<PagePin>)
    requires
        old(reporter).paid(),
        old(reporter).covers(tree),
    ensures
        Reporter::grew(old(reporter), final(reporter)),
        Reporter::same_counts(old(reporter), final(reporter)),
        match r {
            Some(pin) => pin.spec_ordinal() == ordinal && tree.pins(pin) && *final(reporter)
                == *old(reporter),
            None => {
                &&& !Reporter::quiet(old(reporter), final(reporter))
                &&& tree.spec_store().pages().contains_key(ordinal)
                    && tree.spec_store().steady() ==> Reporter::calm(
                    old(reporter),
                    final(reporter),
                ) && final(reporter).spec_failure() is Some
            },
        },
{
    match tree.raw_page(ordinal) {
        Ok(pin) => {
            proof {
                Reporter::lemma_same(reporter);
            }
            Some(pin)
        },
        Err(e) => {
            reporter.failed(Some(ordinal.get()), e);
            None
        },
    }
}

/// Checks the digests of one page against its keys, with the rule searches use.
///
/// Run here whatever the database's digest validation is set to, because a verification
/// pass is the place that is supposed to find this.
pub fn check_page_digests(
    tree: &Tree,
    view: &PageView<'_>,
    ordinal: PageOrdinal,
    reporter: &mut Reporter,
)
    requires
        old(reporter).paid(),
        old(reporter).covers(tree),
    ensures
        Reporter::grew(old(reporter), final(reporter)),
        Reporter::same_counts(old(reporter), final(reporter)),
        Reporter::quiet(old(reporter), final(reporter)) ==> within::digests_sound(
            tree.spec_encoding(),
            view.page(),
        ),
        within::digests_sound(tree.spec_encoding(), view.page()) && node::entries_ok(view.page())
            ==> *final(reporter) == *old(reporter),
        final(reporter).spec_failure() == old(reporter).spec_failure(),
{
    match tree.check_digests(view) {
        Ok(_) => {
            proof {
                Reporter::lemma_same(reporter);
            }
        },
        Err(e) => {
            reporter.failed(Some(ordinal.get()), e);
        },
    }
}

/// The message about a separator that does not match its page, which starts with this key where
/// it has key bytes, and with this digest.
fn separator_words(
    tree: &Tree,
    child: PageOrdinal,
    separator: Separator<'_>,
    first: Option<&[u8]>,
    digest: u64,
) -> (r: Words)
    ensures
        r.said() == "the separator for page "@ + error::decimal(child.get() as nat) + match (
            separator,
            first,
        ) {
            (Separator::Key(key), Some(start)) => " is "@ + registry::described(
                tree.spec_encoding(),
                key@,
            ) + " but that page starts at "@ + registry::described(tree.spec_encoding(), start@),
            (Separator::Key(key), None) => " is "@ + registry::described(
                tree.spec_encoding(),
                key@,
            ) + " but that page starts at digest "@ + "0x"@ + error::hex_digits(digest as nat, 16),
            (Separator::Digest(d), _) => " digests to "@ + "0x"@ + error::hex_digits(d as nat, 16)
                + " but that page starts at "@ + "0x"@ + error::hex_digits(digest as nat, 16),
        },
{
    let words = Words::new("the separator for page ").number(child.get());
    let ghost front = words.said();
    match separator {
        Separator::Key(key) => {
            let shown = describe_key(tree.encoding(), key);
            let words = words.say(" is ").say(shown.as_str());
            match first {
                Some(start) => {
                    let other = describe_key(tree.encoding(), start);
                    let r = words.say(" but that page starts at ").say(other.as_str());
                    proof {
                        assert(r.said() =~= front + (" is "@ + shown@ + " but that page starts at "@
                            + other@));
                    }
                    r
                },
                None => {
                    let r = words.say(" but that page starts at digest ").digest(digest);
                    proof {
                        assert(r.said() =~= front + (" is "@ + shown@
                            + " but that page starts at digest "@ + "0x"@ + error::hex_digits(
                            digest as nat,
                            16,
                        )));
                    }
                    r
                },
            }
        },
        Separator::Digest(d) => {
            let r = words.say(" digests to ").digest(d).say(" but that page starts at ").digest(
                digest,
            );
            proof {
                assert(r.said() =~= front + (" digests to "@ + "0x"@ + error::hex_digits(
                    d as nat,
                    16,
                ) + " but that page starts at "@ + "0x"@ + error::hex_digits(digest as nat, 16)));
            }
            r
        },
    }
}

/// Checks that a child starts where its parent says it does.
///
/// Every other check can pass while this one fails: the page numbers line up, the sibling
/// links line up, and each page is ordered correctly, but a separator that no longer
/// matches its child sends a descent into the wrong page, and a key that is really there
/// is reported as absent.
pub fn check_separator(
    tree: &Tree,
    child_view: &PageView<'_>,
    separator: Separator<'_>,
    child: PageOrdinal,
    parent: PageOrdinal,
    reporter: &mut Reporter,
)
    requires
        old(reporter).paid(),
        old(reporter).covers(tree),
        node::entries_ok(child_view.page()),
    ensures
        Reporter::grew(old(reporter), final(reporter)),
        Reporter::same_counts(old(reporter), final(reporter)),
        final(reporter).spec_failure() == old(reporter).spec_failure(),
        Reporter::quiet(old(reporter), final(reporter)) ==> separator.starts(
            tree.spec_encoding(),
            child_view.page(),
        ),
        separator.starts(tree.spec_encoding(), child_view.page()) ==> *final(reporter) == *old(reporter),
{
    let ghost q = child_view.page();
    if child_view.entry_count() == 0 {
        // Nothing to compare, and nothing that should be here: an internal page only
        // points at pages that hold entries, and a page that lost its own would drop
        // every row on it out of every scan without any other check noticing.
        reporter.problem_words(
            child,
            Words::new("page ")
                .number(child.get())
                .say(" has no entries but page ")
                .number(parent.get())
                .say(" points at it"),
        );
        return;
    }
    // In-order position zero, whichever way the digests are laid out.
    let child_digest = match child_view.ranked_digest(0) {
        Ok(digest) => digest,
        Err(e) => {
            proof {
                node::lemma_digest_count(q);
            }
            reporter.failed(Some(child.get()), e);
            return;
        },
    };
    let mut start: Option<&[u8]> = None;
    let right = match separator {
        Separator::Key(key) => {
            if child_view.layout().omitted_keys {
                // Builders pick one layout for a whole tree, so a separator with key bytes
                // over a child that omits its own does not come from any of them; it is
                // still compared, through the digest, rather than passed over.
                match tree.encoding().inner.accepts_digest(key, child_digest) {
                    Ok(right) => right,
                    Err(e) => {
                        reporter.failed(Some(parent.get()), e);
                        return;
                    },
                }
            } else {
                match entry_key(child_view, 0) {
                    Ok(first) => {
                        start = Some(first);
                        same_bytes(first, key)
                    },
                    Err(e) => {
                        reporter.failed(Some(child.get()), e);
                        return;
                    },
                }
            }
        },
        Separator::Digest(digest) => digest == child_digest,
    };
    if !right {
        reporter.problem_words(parent, separator_words(tree, child, separator, start, child_digest));
        return;
    }
    proof {
        Reporter::lemma_same(reporter);
    }
}

/// Steps along one tree level's sibling chain in lockstep with the children the level
/// above declares.
///
/// A level's pages and its parents' child references are two descriptions of the same
/// sequence, so comparing them one at a time needs only the page being advanced over: it
/// catches a chain that stops early, a chain with pages no parent points at, and a child
/// reference that names a real page other than the one that belongs there. The chain's
/// start is taken from the first child, because that is where the walk of that level will
/// begin as well.
pub struct LowerChain {
    current: Option<PageOrdinal>,
    started: bool,
    steps_left: u64,
    broken: bool,
    /// The children declared so far.
    seen: Ghost<Seq<PageOrdinal>>,
}

/// Whether each of the first pages is linked to the next.
pub open spec fn linked(pages: Pages, l: Seq<PageOrdinal>) -> bool {
    &&& forall|i: int| 0 <= i < l.len() ==> pages.contains_key(#[trigger] l[i])
    &&& forall|i: int| 0 <= i < l.len() - 1 ==> #[trigger] sound::right_ok(pages, l, i)
}

impl LowerChain {
    /// The children declared so far.
    pub closed spec fn spec_seen(&self) -> Seq<PageOrdinal> {
        self.seen@
    }

    /// Whether the chain and the children were found to disagree.
    pub closed spec fn spec_broken(&self) -> bool {
        self.broken
    }

    /// How many more pages the chain may have.
    pub closed spec fn spec_steps(&self) -> int {
        self.steps_left as int
    }

    /// The page the chain continues at.
    pub closed spec fn spec_current(&self) -> Option<PageOrdinal> {
        self.current
    }

    /// Whether the children declared so far are the chain so far, as long as the two agree.
    pub closed spec fn ok(&self, pages: Pages) -> bool {
        !self.broken ==> {
            &&& self.started == (self.seen@.len() > 0)
            &&& linked(pages, self.seen@)
            &&& self.current == (if self.seen@.len() == 0 {
                None
            } else {
                node::page_right(pages[self.seen@.last()])
            })
        }
    }

    /// What a chain that agrees with the children knows.
    pub proof fn lemma_ok(&self, pages: Pages)
        requires
            self.ok(pages),
            !self.spec_broken(),
        ensures
            linked(pages, self.spec_seen()),
            self.spec_seen().len() > 0 ==> self.spec_current() == node::page_right(
                pages[self.spec_seen().last()],
            ),
    {
    }

    /// Nothing declared yet.
    pub fn new(steps_left: u64) -> (r: LowerChain)
        ensures
            !r.spec_broken(),
            r.spec_steps() == steps_left,
            r.spec_seen() == Seq::<PageOrdinal>::empty(),
            forall|pages: Pages| #[trigger] r.ok(pages),
    {
        LowerChain {
            current: None,
            started: false,
            steps_left,
            broken: false,
            seen: Ghost(Seq::empty()),
        }
    }

    /// Whether the next declared child is one the chain has.
    pub open spec fn fits(&self, tree: &Tree, child: PageOrdinal, separator: Separator<'_>) -> bool {
        let pages = tree.spec_store().pages();
        &&& !self.spec_broken()
        &&& self.spec_steps() > 0
        &&& self.spec_seen().len() > 0 ==> self.spec_current() == Some(child)
        &&& pages.contains_key(child)
        &&& separator.starts(tree.spec_encoding(), pages[child])
    }

    /// Matches one declared child against the chain and advances.
    ///
    /// `separator` is what the parent says this child starts at, which is checked against
    /// what the child actually starts with.
    pub fn expect(
        &mut self,
        tree: &Tree,
        child: PageOrdinal,
        parent: PageOrdinal,
        separator: Separator<'_>,
        reporter: &mut Reporter,
    )
        requires
            old(reporter).paid(),
            old(reporter).covers(tree),
            old(self).ok(tree.spec_store().pages()),
        ensures
            Reporter::grew(old(reporter), final(reporter)),
            Reporter::same_counts(old(reporter), final(reporter)),
            final(self).ok(tree.spec_store().pages()),
            final(self).spec_seen() == old(self).spec_seen().push(child),
            old(self).spec_broken() ==> final(self).spec_broken(),
            final(self).spec_broken() && !old(self).spec_broken() ==> !Reporter::quiet(
                old(reporter),
                final(reporter),
            ),
            Reporter::quiet(old(reporter), final(reporter)) && !old(self).spec_broken()
                ==> tree.spec_store().pages().contains_key(child) && separator.starts(
                tree.spec_encoding(),
                tree.spec_store().pages()[child],
            ),
            old(self).fits(tree, child, separator) && tree.spec_store().steady() ==> {
                &&& Reporter::calm(old(reporter), final(reporter))
                &&& final(reporter).spec_failure() is None ==> !final(self).spec_broken() && final(self).spec_steps() == old(self).spec_steps() - 1
            },
    {
        let ghost before = self.seen@;
        let ghost pages = tree.spec_store().pages();
        proof {
            self.seen@ = before.push(child);
            Reporter::lemma_same(reporter);
            assert(before.push(child).drop_last() =~= before);
        }
        if self.broken {
            return;
        }
        if !self.started {
            self.started = true;
            self.current = Some(child);
        }
        match self.current {
            Some(current) => {
                if current.get() != child.get() {
                    reporter.problem_words(
                        parent,
                        Words::new("this page's child is page ")
                            .number(child.get())
                            .say(" but the level below continues at page ")
                            .number(current.get()),
                    );
                    self.broken = true;
                    return;
                }
                proof {
                    assert(PageOrdinal::spec_new(current.get()) == current);
                    assert(PageOrdinal::spec_new(child.get()) == child);
                }
            },
            None => {
                reporter.problem_words(
                    parent,
                    Words::new("this page points at page ")
                        .number(child.get())
                        .say(" but the level below has no more pages"),
                );
                self.broken = true;
                return;
            },
        }
        if self.steps_left == 0 {
            reporter.problem(
                Some(child.get()),
                "the sibling chain visits more pages than the file contains",
            );
            self.broken = true;
            return;
        }
        self.steps_left = self.steps_left - 1;
        let pin = match walk_page(tree, child, reporter) {
            Some(pin) => pin,
            None => {
                self.broken = true;
                return;
            },
        };
        match pin.parsed() {
            Ok(view) => {
                check_separator(tree, &view, separator, child, parent, reporter);
                self.current = view.right_sibling();
            },
            Err(e) => {
                reporter.failed(Some(child.get()), e);
                self.broken = true;
            },
        }
        proof {
            let now = before.push(child);
            assert forall|i: int| 0 <= i < now.len() - 1 implies #[trigger] sound::right_ok(
                pages,
                now,
                i,
            ) by {
                if i < before.len() - 1 {
                    assert(sound::right_ok(pages, before, i));
                    assert(now[i] == before[i] && now[i + 1] == before[i + 1]);
                }
            }
        }
    }

    /// Reports pages the level below has that no parent pointed at.
    pub fn finish(&self, reporter: &mut Reporter)
        requires
            old(reporter).paid(),
        ensures
            Reporter::grew(old(reporter), final(reporter)),
            Reporter::same_counts(old(reporter), final(reporter)),
            Reporter::quiet(old(reporter), final(reporter)) && !self.spec_broken()
                ==> self.spec_current() is None,
            self.spec_current() is None ==> *final(reporter) == *old(reporter),
            final(reporter).spec_failure() == old(reporter).spec_failure(),
    {
        proof {
            Reporter::lemma_same(reporter);
        }
        if self.broken {
            return;
        }
        if let Some(extra) = self.current {
            reporter.problem(
                Some(extra.get()),
                "no page of the level above points at this page or the ones after it",
            );
        }
    }
}

} // verus!
