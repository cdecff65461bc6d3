//! What a verification pass finds, and where it records it.

use std::sync::Arc;

use vstd::prelude::*;
use vstd::string::*;
use vstd::utf8::*;

use crate::budget::{self, Charge, Charged};
use crate::btree::Tree;
use crate::error::{self, message_with, push_decimal, Error, ErrorKind, Words};
use crate::format::PageOrdinal;
use crate::store::PageStore;
use crate::text::{self, utf8_text};

verus! {

/// What to check.
#[derive(Debug, Clone, Copy)]
pub struct VerifyOptions {
    /// Load and structurally validate every page in the directory.
    pub check_pages: bool,
    /// Walk every tree, checking key order and sibling links.
    pub check_trees: bool,
    /// Stop after this many problems.
    pub max_problems: usize,
}

impl Default for VerifyOptions {
    fn default() -> (r: Self)
        ensures
            r.check_pages,
            r.check_trees,
            r.max_problems == 100,
    {
        VerifyOptions { check_pages: true, check_trees: true, max_problems: 100 }
    }
}

/// One thing that is wrong with the file.
#[derive(Debug, Clone, PartialEq, Eq)]
pub struct VerifyProblem {
    /// Page the problem was found on, when known.
    pub page: Option<u64>,
    /// What is wrong.
    pub message: String,
}

impl VerifyProblem {
    /// The problem as one line of text.
    pub fn to_text(&self) -> (r: String)
        ensures
            r@ == (match self.page {
                Some(p) => "page "@ + crate::error::decimal(p as nat) + ": "@ + self.message@,
                None => self.message@,
            }),
    {
        match self.page {
            Some(p) => {
                let mut out = message_with("page ", p, ": ");
                out.append(self.message.as_str());
                out
            },
            None => self.message.clone(),
        }
    }
}

/// The outcome of a verification pass.
#[derive(Debug, Clone, PartialEq, Eq)]
pub struct VerifyReport {
    /// Pages loaded and validated.
    pub pages_checked: u64,
    /// Tree entries walked.
    pub entries_checked: u64,
    /// Trees walked.
    pub trees_checked: u64,
    /// Problems found, up to `max_problems`.
    pub problems: Vec<VerifyProblem>,
    /// Whether the scan stopped early because `max_problems` was reached.
    pub truncated: bool,
}

impl Default for VerifyReport {
    fn default() -> (r: Self)
        ensures
            r.pages_checked == 0,
            r.entries_checked == 0,
            r.trees_checked == 0,
            r.problems@.len() == 0,
            !r.truncated,
    {
        VerifyReport {
            pages_checked: 0,
            entries_checked: 0,
            trees_checked: 0,
            problems: Vec::new(),
            truncated: false,
        }
    }
}

impl VerifyReport {
    /// Whether the file passed.
    pub open spec fn clean(&self) -> bool {
        self.problems@.len() == 0 && !self.truncated
    }

    /// Whether the file passed.
    ///
    /// A truncated pass did not finish looking, so it did not find that the file is
    /// sound; it found that it stopped. Either the caller's `max_problems` was reached,
    /// which means there were problems, or there was no room to record one.
    pub fn is_ok(&self) -> (r: bool)
        ensures
            r == self.clean(),
    {
        self.problems.len() == 0 && !self.truncated
    }
}

/// Longest problem message the report keeps.
pub const MAX_PROBLEM_MESSAGE: usize = 512;

/// Bytes of a table or index name a label carries.
///
/// A name is as long as the file says it is, and it goes in front of every message this
/// pass produces. Building the whole thing and cutting it afterwards spends the memory
/// first, which is what the reservation is supposed to prevent.
pub const MAX_NAME_IN_LABEL: usize = 64;

/// What one problem costs at the most: its message, the struct, the vector slot it goes in,
/// an allocation header, and the room those take while the list is grown and the message is
/// built.
pub const PROBLEM_COST: u64 = 768;

/// What a list of problems costs.
pub open spec fn problems_cost(n: nat) -> u64 {
    budget::capped(n * PROBLEM_COST)
}

/// Whether the first `cut` bytes are the longest front that is a text and not longer than
/// `max` bytes.
pub open spec fn front_ends(bytes: Seq<u8>, max: int, cut: int) -> bool {
    &&& 0 <= cut <= max
    &&& valid_utf8(bytes.subrange(0, cut))
    &&& forall|c: int| cut < c <= max ==> !#[trigger] valid_utf8(bytes.subrange(0, c))
}

/// Whether a text is the longest front that is not longer than `max` bytes.
pub open spec fn is_front(bytes: Seq<u8>, max: int, text: Seq<char>) -> bool {
    exists|cut: int|
        #[trigger] front_ends(bytes, max, cut) && text == decode_utf8(bytes.subrange(0, cut))
}

/// The longest front of a text that is not longer than `max` bytes.
fn front_text(bytes: &[u8], max: usize) -> (r: String)
    requires
        max <= bytes@.len(),
    ensures
        is_front(bytes@, max as int, r@),
{
    let mut cut: usize = max;
    while cut > 0
        invariant
            cut <= max <= bytes@.len(),
            forall|c: int| cut < c <= max ==> !#[trigger] valid_utf8(bytes@.subrange(0, c)),
        decreases cut,
    {
        if let Some(front) = utf8_text(vstd::slice::slice_subrange(bytes, 0, cut)) {
            proof {
                assert(front_ends(bytes@, max as int, cut as int));
            }
            return front;
        }
        cut -= 1;
    }
    let nothing = "".to_owned();
    proof {
        reveal_strlit("");
        let none = bytes@.subrange(0, 0);
        assert(none =~= encode_utf8(nothing@));
        text::lemma_text_bytes(nothing@);
        assert(front_ends(bytes@, max as int, 0));
    }
    nothing
}

/// Renders a name for a label, bounded.
pub(crate) fn short_name(name: &str) -> (r: String)
    ensures
        name.spec_bytes().len() <= MAX_NAME_IN_LABEL ==> r@ == name@,
        name.spec_bytes().len() > MAX_NAME_IN_LABEL ==> exists|front: Seq<char>|
            #[trigger] is_front(name.spec_bytes(), MAX_NAME_IN_LABEL as int, front) && r@ == front
                + "... ("@ + error::decimal(name.spec_bytes().len()) + " bytes)"@,
{
    let bytes = name.as_bytes();
    if bytes.len() <= MAX_NAME_IN_LABEL {
        return name.to_owned();
    }
    let mut out = front_text(bytes, MAX_NAME_IN_LABEL);
    out.append("... (");
    push_decimal(&mut out, bytes.len() as u64);
    out.append(" bytes)");
    out
}

/// Whether a text is a message behind the label it belongs to, bounded.
pub open spec fn is_bounded(label: Seq<char>, message: Seq<char>, text: Seq<char>) -> bool {
    let full = label + ": "@ + message;
    if encode_utf8(full).len() <= MAX_PROBLEM_MESSAGE {
        text == full
    } else {
        exists|front: Seq<char>|
            #[trigger] is_front(encode_utf8(full), MAX_PROBLEM_MESSAGE as int, front) && text
                == front + "..."@
    }
}

/// A message behind the label it belongs to, bounded.
fn bounded_message(label: &str, message: &str) -> (r: String)
    ensures
        is_bounded(label@, message@, r@),
{
    let mut full = label.to_owned();
    full.append(": ");
    full.append(message);
    let bytes = full.as_str().as_bytes();
    if bytes.len() <= MAX_PROBLEM_MESSAGE {
        return full;
    }
    let mut short = front_text(bytes, MAX_PROBLEM_MESSAGE);
    short.append("...");
    short
}

/// Where a walk records what it finds.
pub struct Reporter {
    max_problems: usize,
    /// Names the tree in every message this walk produces.
    label: String,
    report: VerifyReport,
    /// What the report has cost so far.
    ///
    /// The report grows while the pass runs, so it is reserved as it grows and not left
    /// to `max_problems` alone: the caller's limit bounds how many problems there are,
    /// but a hundred of them is tens of kilobytes, which a small budget does not have.
    /// The pass stops recording rather than growing past the budget.
    charge: Charge,
    /// Where the room for it comes from.
    ///
    /// Through the store rather than the budget directly, so a report can displace
    /// cached pages: the report is the answer the pass exists to give, and the pages are
    /// a convenience it can rebuild by reading them again.
    store: Arc<PageStore>,
    /// The first thing that stopped the pass rather than being wrong with the file.
    ///
    /// Running out of budget is not a finding: the pass did not learn that the page is
    /// damaged, it learned that it could not look. That is the caller's to fix, so it
    /// comes back as an error instead of going in the report.
    failure: Option<Error>,
    /// The trees whose pages the pass may look at.
    trees: Ghost<Set<Tree>>,
}

impl Reporter {
    /// The trees whose pages the pass may look at.
    pub closed spec fn spec_trees(&self) -> Set<Tree> {
        self.trees@
    }

    /// What goes in front of every message.
    pub closed spec fn spec_label(&self) -> Seq<char> {
        self.label@
    }

    /// Whether an error is one that may stop the pass: a page of the file could not be read, or
    /// there was no memory for a copy of a key of one of the trees.
    pub open spec fn excuses(&self, e: Error) -> bool {
        ||| self.spec_store().read_failed(e)
        ||| exists|t: Tree| self.spec_trees().contains(t) && #[trigger] t.key_denied(e)
    }

    /// Whether a tree is one that the pass may look at.
    pub open spec fn covers(&self, t: &Tree) -> bool {
        t.spec_store() == self.spec_store() && self.spec_trees().contains(*t)
    }

    /// Whether a problem was recorded as it was given, or left out of a report that says so: it
    /// was full, the pass had stopped, or there was no memory for another one.
    pub open spec fn noted(a: &Reporter, b: &Reporter, page: Option<u64>, text: Seq<char>) -> bool {
        let (p, q) = (a.spec_report().problems@, b.spec_report().problems@);
        ||| {
            &&& q == p
            &&& b.spec_report().truncated
            &&& a.cut_short()
        }
        ||| {
            &&& !a.is_full()
            &&& q.len() == p.len() + 1
            &&& q.drop_last() == p
            &&& q.last().page == page
            &&& is_bounded(a.spec_label(), text, q.last().message@)
            &&& b.spec_report().truncated == a.spec_report().truncated
        }
    }

    /// The report so far.
    pub closed spec fn spec_report(&self) -> VerifyReport {
        self.report
    }

    /// What stopped the pass, if something did.
    pub closed spec fn spec_failure(&self) -> Option<Error> {
        self.failure
    }

    /// How many problems the report may hold.
    pub closed spec fn spec_max(&self) -> int {
        self.max_problems as int
    }

    /// The store the report is paid from.
    pub closed spec fn spec_store(&self) -> Arc<PageStore> {
        self.store
    }

    /// Whether the report is paid from the store's budget, problem by problem, only memory or the source stopped the
    /// pass, and the report says that something was left out only where it may have been.
    pub closed spec fn paid(&self) -> bool {
        &&& self.charge.owner() == self.store.spec_budget()
        &&& self.charge.spec_bytes() == problems_cost(self.report.problems@.len())
        &&& self.failure matches Some(e) ==> e.is_resource() && self.excuses(e)
        &&& self.report.truncated ==> self.cut_short()
    }

    /// Whether a problem may have been left out: the report is full, the pass has stopped, or
    /// there was no memory for another one.
    pub open spec fn cut_short(&self) -> bool {
        self.is_full() || self.spec_store().lacked(PROBLEM_COST)
    }

    /// Whether the report has reached the caller's limit, or the pass has stopped.
    pub open spec fn is_full(&self) -> bool {
        self.spec_failure() is Some || self.spec_report().problems@.len() >= self.spec_max()
    }

    /// Whether only more was found since `a`.
    pub open spec fn grew(a: &Reporter, b: &Reporter) -> bool {
        let (p, q) = (a.spec_report().problems@, b.spec_report().problems@);
        &&& b.paid()
        &&& b.spec_max() == a.spec_max()
        &&& b.spec_store() == a.spec_store()
        &&& b.spec_trees() == a.spec_trees()
        &&& p.len() <= q.len()
        &&& p.len() <= a.spec_max() ==> q.len() <= b.spec_max()
        &&& q.subrange(0, p.len() as int) == p
        &&& a.spec_report().truncated ==> b.spec_report().truncated
        &&& a.spec_failure() is Some ==> b.spec_failure() == a.spec_failure()
    }

    /// Whether nothing was found since `a`, by a pass that could go on: there is room for
    /// another problem, nothing was left out and nothing stopped the pass.
    pub open spec fn quiet(a: &Reporter, b: &Reporter) -> bool {
        &&& b.spec_report().problems@ == a.spec_report().problems@
        &&& !b.spec_report().truncated
        &&& !b.is_full()
    }

    /// Whether no problem was found since `a`; what stopped the pass, if something did, is
    /// memory, or a source that failed.
    pub open spec fn calm(a: &Reporter, b: &Reporter) -> bool {
        &&& b.spec_report().problems@ == a.spec_report().problems@
        &&& b.spec_report().truncated == a.spec_report().truncated
        &&& b.spec_failure() == a.spec_failure() || (b.spec_failure() matches Some(e)
            && b.spec_store().excused(e))
    }

    /// Whether the counters are as they were.
    pub open spec fn same_counts(a: &Reporter, b: &Reporter) -> bool {
        let (x, y) = (a.spec_report(), b.spec_report());
        &&& y.pages_checked == x.pages_checked
        &&& y.entries_checked == x.entries_checked
        &&& y.trees_checked == x.trees_checked
    }

    /// A pass that stayed quiet was quiet all along.
    pub proof fn lemma_quiet(a: &Reporter, b: &Reporter, c: &Reporter)
        requires
            Reporter::grew(a, b),
            Reporter::grew(b, c),
        ensures
            Reporter::grew(a, c),
            Reporter::quiet(a, c) ==> Reporter::quiet(a, b) && Reporter::quiet(b, c),
            Reporter::calm(a, b) && Reporter::calm(b, c) ==> Reporter::calm(a, c),
    {
        let (p, q, r) = (
            a.spec_report().problems@,
            b.spec_report().problems@,
            c.spec_report().problems@,
        );
        assert(r.subrange(0, p.len() as int) =~= r.subrange(0, q.len() as int).subrange(
            0,
            p.len() as int,
        ));
        if r == p {
            assert(q =~= p) by {
                assert(q =~= r.subrange(0, q.len() as int));
            }
        }
    }

    /// A report says that something was left out only where it may have been.
    pub proof fn lemma_cut_short(&self)
        requires
            self.paid(),
        ensures
            self.spec_report().truncated ==> self.cut_short(),
    {
    }

    /// Nothing changed.
    pub proof fn lemma_same(a: &Reporter)
        requires
            a.paid(),
        ensures
            Reporter::grew(a, a),
            Reporter::calm(a, a),
    {
        let p = a.spec_report().problems@;
        assert(p =~= p.subrange(0, p.len() as int));
    }

    /// Starts a report with nothing in it.
    pub fn new(
        max_problems: usize,
        store: &Arc<PageStore>,
        Ghost(trees): Ghost<Set<Tree>>,
    ) -> (r: Result<Reporter, Error>)
        ensures
            match r {
                Ok(b) => {
                    &&& b.paid()
                    &&& b.spec_max() == max_problems
                    &&& b.spec_store() == *store
                    &&& b.spec_trees() == trees
                    &&& b.spec_failure() is None
                    &&& b.spec_report().problems@.len() == 0
                    &&& !b.spec_report().truncated
                    &&& b.spec_report().pages_checked == 0
                    &&& b.spec_report().entries_checked == 0
                    &&& b.spec_report().trees_checked == 0
                },
                Err(_) => false,
            },
    {
        let charge = match store.reserve(0) {
            Ok(charge) => charge,
            Err(e) => return Err(e),
        };
        Ok(
            Reporter {
                max_problems,
                label: "page".to_owned(),
                report: VerifyReport::default(),
                charge,
                store: Arc::clone(store),
                failure: None,
                trees: Ghost(trees),
            },
        )
    }

    /// Names what is being checked, in front of every message from here on.
    pub fn relabel(&mut self, label: String)
        requires
            old(self).paid(),
        ensures
            Reporter::grew(old(self), final(self)),
            Reporter::calm(old(self), final(self)),
            Reporter::same_counts(old(self), final(self)),
            final(self).spec_failure() == old(self).spec_failure(),
            final(self).spec_label() == label@,
    {
        proof {
            Reporter::lemma_same(self);
        }
        self.label = label;
    }

    /// Whether the pass has hit something that stops it.
    pub fn stopped(&self) -> (r: bool)
        ensures
            r == (self.spec_failure() is Some),
    {
        self.failure.is_some()
    }

    /// Whether the report has reached the caller's limit, or the pass has stopped.
    pub fn full(&self) -> (r: bool)
        ensures
            r == self.is_full(),
    {
        self.failure.is_some() || self.report.problems.len() >= self.max_problems
    }

    /// Records a problem, keeping the message shape uniform and the limit honoured.
    ///
    /// The limit is enforced here rather than at each caller: one page fails several
    /// different checks, and a caller that only looks at the limit between pages, or
    /// between entries, overshoots by however many checks it ran in between.
    pub fn problem(&mut self, page: Option<u64>, message: &str)
        requires
            old(self).paid(),
        ensures
            Reporter::grew(old(self), final(self)),
            !Reporter::quiet(old(self), final(self)),
            Reporter::same_counts(old(self), final(self)),
            final(self).spec_failure() == old(self).spec_failure(),
            Reporter::noted(old(self), final(self), page, message@),
            final(self).spec_label() == old(self).spec_label(),
    {
        proof {
            Reporter::lemma_same(self);
        }
        if self.full() {
            self.report.truncated = true;
            return;
        }
        // Reserved before the message is built, at the most one can cost, because what a
        // message will come to is only known once it exists. Over-reserving by the
        // difference is the price of never allocating first.
        let more = match self.store.reserve(PROBLEM_COST) {
            Ok(more) => more,
            Err(e) => {
                proof {
                    assert(self.spec_store().lacks(PROBLEM_COST, e));
                    assert(self.spec_store().lacked(PROBLEM_COST));
                }
                // No room to remember it, even after reclaiming. Saying so is better
                // than growing past the budget the caller set.
                self.report.truncated = true;
                return;
            },
        };
        self.charge.absorb(more);
        let message = bounded_message(self.label.as_str(), message);
        let ghost before = self.report.problems@;
        self.report.problems.push(VerifyProblem { page, message });
        proof {
            let after = self.report.problems@;
            assert(after.subrange(0, before.len() as int) =~= before);
            assert(after.drop_last() =~= before);
        }
    }

    /// Records what went wrong, unless what went wrong stops the pass.
    pub fn failed(&mut self, page: Option<u64>, e: Error)
        requires
            old(self).paid(),
            e.is_resource() ==> old(self).excuses(e),
        ensures
            if e.is_resource() {
                final(self).spec_report() == old(self).spec_report()
            } else {
                Reporter::noted(old(self), final(self), page, e.text())
            },
            final(self).spec_label() == old(self).spec_label(),
            Reporter::grew(old(self), final(self)),
            !Reporter::quiet(old(self), final(self)),
            Reporter::same_counts(old(self), final(self)),
            old(self).spec_store().excused(e) ==> Reporter::calm(old(self), final(self)),
            e.is_resource() ==> final(self).spec_failure() is Some,
            final(self).spec_failure() is Some ==> final(self).spec_failure()
                == old(self).spec_failure() || (e.is_resource() && final(self).spec_failure()
                == Some(e)),
    {
        // Running out of budget and failing to read are both of the kind that stops the
        // pass: it did not learn that a page is damaged, it learned that it could not
        // look. Which of the two it was is the caller's to fix, and neither is a finding
        // about the file.
        let kind = e.kind();
        if kind == ErrorKind::BudgetExceeded || kind == ErrorKind::Io {
            proof {
                Reporter::lemma_same(self);
            }
            if self.failure.is_none() {
                self.failure = Some(e);
            }
            return;
        }
        let text = e.to_text();
        self.problem(page, text.as_str());
    }

    /// The same, for a message that says where in the page the failure was.
    pub(crate) fn failed_with(&mut self, page: Option<u64>, place: Words, e: Error)
        requires
            old(self).paid(),
            e.is_resource() ==> old(self).excuses(e),
        ensures
            if e.is_resource() {
                final(self).spec_report() == old(self).spec_report()
            } else {
                Reporter::noted(
                    old(self),
                    final(self),
                    page,
                    place.said() + ": "@ + e.text(),
                )
            },
            final(self).spec_label() == old(self).spec_label(),
            Reporter::grew(old(self), final(self)),
            !Reporter::quiet(old(self), final(self)),
            Reporter::same_counts(old(self), final(self)),
            old(self).spec_store().excused(e) ==> Reporter::calm(old(self), final(self)),
            e.is_resource() ==> final(self).spec_failure() is Some,
            final(self).spec_failure() is Some ==> final(self).spec_failure()
                == old(self).spec_failure() || (e.is_resource() && final(self).spec_failure()
                == Some(e)),
    {
        let kind = e.kind();
        if kind == ErrorKind::BudgetExceeded || kind == ErrorKind::Io {
            self.failed(page, e);
            return;
        }
        let text = place.say(": ").say(e.to_text().as_str()).end();
        self.problem(page, text.as_str());
    }

    /// A problem with a message that was put together.
    pub(crate) fn problem_words(&mut self, page: PageOrdinal, words: Words)
        requires
            old(self).paid(),
        ensures
            Reporter::grew(old(self), final(self)),
            !Reporter::quiet(old(self), final(self)),
            Reporter::same_counts(old(self), final(self)),
            final(self).spec_failure() == old(self).spec_failure(),
            Reporter::noted(old(self), final(self), Some(page.get()), words.said()),
            final(self).spec_label() == old(self).spec_label(),
    {
        let text = words.end();
        self.problem(Some(page.get()), text.as_str());
    }

    /// Counts a page that was loaded and validated.
    pub fn count_page(&mut self)
        requires
            old(self).paid(),
        ensures
            Reporter::grew(old(self), final(self)),
            Reporter::calm(old(self), final(self)),
            final(self).spec_failure() == old(self).spec_failure(),
            final(self).spec_report() == (VerifyReport {
                pages_checked: budget::capped(old(self).spec_report().pages_checked + 1),
                ..old(self).spec_report()
            }),
    {
        proof {
            Reporter::lemma_same(self);
        }
        self.report.pages_checked = self.report.pages_checked.saturating_add(1);
    }

    /// Counts a tree entry that was walked.
    pub fn count_entry(&mut self)
        requires
            old(self).paid(),
        ensures
            Reporter::grew(old(self), final(self)),
            Reporter::calm(old(self), final(self)),
            final(self).spec_failure() == old(self).spec_failure(),
            final(self).spec_report() == (VerifyReport {
                entries_checked: budget::capped(old(self).spec_report().entries_checked + 1),
                ..old(self).spec_report()
            }),
    {
        proof {
            Reporter::lemma_same(self);
        }
        self.report.entries_checked = self.report.entries_checked.saturating_add(1);
    }

    /// Counts a tree that was walked.
    pub fn count_tree(&mut self)
        requires
            old(self).paid(),
        ensures
            Reporter::grew(old(self), final(self)),
            Reporter::calm(old(self), final(self)),
            final(self).spec_failure() == old(self).spec_failure(),
            final(self).spec_report() == (VerifyReport {
                trees_checked: budget::capped(old(self).spec_report().trees_checked + 1),
                ..old(self).spec_report()
            }),
    {
        proof {
            Reporter::lemma_same(self);
        }
        self.report.trees_checked = self.report.trees_checked.saturating_add(1);
    }

    /// Says that the pass stopped before it had looked at everything.
    pub fn truncate(&mut self)
        requires
            old(self).paid(),
            old(self).is_full(),
        ensures
            Reporter::grew(old(self), final(self)),
            !Reporter::quiet(old(self), final(self)),
            final(self).spec_failure() == old(self).spec_failure(),
            final(self).spec_report() == (VerifyReport {
                truncated: true,
                ..old(self).spec_report()
            }),
    {
        proof {
            Reporter::lemma_same(self);
        }
        self.report.truncated = true;
    }

    /// The report, with the reservation that paid for it, or what stopped the pass.
    pub fn finish(self) -> (r: Result<Charged<VerifyReport>, Error>)
        ensures
            match r {
                Ok(c) => {
                    &&& self.spec_failure() is None
                    &&& c.spec_value() == self.spec_report()
                    &&& self.paid() ==> {
                        &&& c.spec_value().truncated ==> self.cut_short()
                        &&& c.spec_charged() == problems_cost(c.spec_value().problems@.len())
                        &&& c.owner() == self.spec_store().spec_budget()
                    }
                },
                Err(e) => self.spec_failure() == Some(e) && (self.paid() ==> e.is_resource()
                    && self.excuses(e)),
            },
    {
        match self.failure {
            Some(e) => Err(e),
            None => Ok(Charged::new(self.report, self.charge)),
        }
    }
}

/// A report is clean where it lists no problem and left none out, and each problem costs 768 bytes.
pub proof fn lemma_report(r: VerifyReport, n: nat)
    requires
        n <= 0xFFFF_FFFF,
    ensures
        r.clean() <==> r.problems@.len() == 0 && !r.truncated,
        problems_cost(n) == 768 * n,
{
}

/// A problem that is found is listed behind the others, with its page and what it is about, while
/// there may be more of them. Where there may not, the report says that it left something out. What
/// was listed stays as it was.
pub proof fn lemma_noted(a: &Reporter, b: &Reporter, page: Option<u64>, message: Seq<char>)
    requires
        Reporter::noted(a, b, page, message),
        a.spec_report().problems@.len() <= a.spec_max(),
    ensures
        b.spec_report().problems@.len() <= a.spec_max(),
        a.is_full() ==> b.spec_report().problems@ == a.spec_report().problems@
            && b.spec_report().truncated,
        forall|i: int|
            0 <= i < a.spec_report().problems@.len() ==> #[trigger] b.spec_report().problems@[i]
                == a.spec_report().problems@[i],
        !b.spec_report().truncated ==> b.spec_report().problems@.len()
            == a.spec_report().problems@.len() + 1 && b.spec_report().problems@.last().page == page,
        !b.spec_report().clean(),
        b.spec_report().problems@.len() > a.spec_report().problems@.len() && encode_utf8(
            a.spec_label() + ": "@ + message,
        ).len() <= 512 ==> b.spec_report().problems@.last().message@ == a.spec_label() + ": "@
            + message,
{
    let (p, q) = (a.spec_report().problems@, b.spec_report().problems@);
    if q.len() > p.len() {
        assert forall|i: int| 0 <= i < p.len() implies #[trigger] q[i] == p[i] by {
            assert(q.drop_last()[i] == q[i]);
        }
    }
}

/// A message that is too long is cut after at most 512 bytes, where a character ends, and no
/// earlier than it has to be.
pub proof fn lemma_bounded(label: Seq<char>, message: Seq<char>, out: Seq<char>)
    requires
        is_bounded(label, message, out),
        encode_utf8(label + ": "@ + message).len() > 512,
    ensures
        exists|cut: int|
            0 <= cut <= 512 && #[trigger] valid_utf8(
                encode_utf8(label + ": "@ + message).subrange(0, cut),
            ) && out == decode_utf8(encode_utf8(label + ": "@ + message).subrange(0, cut)) + "..."@
                && (forall|c: int|
                cut < c <= 512 ==> !#[trigger] valid_utf8(
                    encode_utf8(label + ": "@ + message).subrange(0, c),
                )),
{
    let bytes = encode_utf8(label + ": "@ + message);
    let front = choose|front: Seq<char>|
        #[trigger] is_front(bytes, MAX_PROBLEM_MESSAGE as int, front) && out == front + "..."@;
    let cut = choose|cut: int|
        #[trigger] front_ends(bytes, 512, cut) && front == decode_utf8(bytes.subrange(0, cut));
    assert(valid_utf8(bytes.subrange(0, cut)));
}

} // verus!
