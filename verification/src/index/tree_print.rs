//! A readable view of the structure of a tree.
use std::collections::HashSet;
use vstd::prelude::*;

use crate::buffer_pool::{BpmError, BufferPoolManager};
use crate::disk::is_missing;
use crate::index::b_plus_page::{
    valid_internal, valid_leaf, InternalPage, InternalView, LeafPage, LeafView, Page, PageId,
    INVALID_PAGE_ID,
};
use crate::index::b_plus_tree::{pool_failed, BPlusTree};
use crate::index::leaf_laws::lemma_strict_is_sorted;
use crate::index::page_codec::PageCodecError;
use crate::index::page_format::{header_decoded, internal_decoded, leaf_decoded, HeaderPage};
use crate::index::tree_model::{
    child_hi, child_lo, header_of, internal_fits, leaf_fits, node_of, rooted, subtree, NodeView,
    Pages, TreeShape,
};
use crate::index::tree_scan::{
    chain, chain_next, law_tree_chain, leaf_in_span, leaf_on, tree_leaves,
};
use crate::index::{IndexError, InsertError};
use crate::text::{decimal, digits, joined};

verus! {

broadcast use vstd::std_specs::hash::group_hash_axioms;

/// More nodes, or leaves, than this are not shown.
pub const PRINT_LIMIT: usize = 10000;

/// A page id as text.
pub open spec fn pid_text(pid: PageId) -> Seq<char> {
    if pid == INVALID_PAGE_ID {
        "INVALID"@
    } else {
        digits(pid as nat)
    }
}

fn fmt_pid(pid: PageId) -> (res: String)
    ensures
        res@ == pid_text(pid),
{
    if pid == INVALID_PAGE_ID {
        "INVALID".to_owned()
    } else {
        decimal(pid as u64)
    }
}

/// The first `n` of some page ids, parted by commas.
pub open spec fn pids_text(children: Seq<PageId>, n: int) -> Seq<char>
    decreases n,
{
    if n <= 0 {
        "["@
    } else if n == 1 {
        "["@ + pid_text(children[0])
    } else {
        pids_text(children, n - 1) + ", "@ + pid_text(children[n - 1])
    }
}

fn fmt_children(children: &Vec<PageId>) -> (res: String)
    ensures
        res@ == pids_text(children@, children@.len() as int) + "]"@,
{
    let mut s = "[".to_owned();
    let mut i: usize = 0;
    while i < children.len()
        invariant
            i <= children@.len(),
            s@ == pids_text(children@, i as int),
        decreases children@.len() - i,
    {
        if i != 0 {
            s.append(", ");
        }
        s.append(fmt_pid(children[i]).as_str());
        i = i + 1;
    }
    s.append("]");
    s
}

pub open spec fn branch_text(is_last: bool) -> Seq<char> {
    if is_last {
        "└── "@
    } else {
        "├── "@
    }
}

pub open spec fn leaf_line(v: LeafView, pid: PageId, prefix: Seq<char>, is_last: bool) -> Seq<char> {
    prefix + branch_text(is_last) + "leaf page_id="@ + pid_text(pid) + " keys="@ + digits(
        v.keys.len(),
    ) + " next_leaf_id="@ + pid_text(v.next_leaf_id)
}

pub open spec fn internal_line(
    v: InternalView,
    pid: PageId,
    prefix: Seq<char>,
    is_last: bool,
) -> Seq<char> {
    prefix + branch_text(is_last) + "internal page_id="@ + pid_text(pid) + " keys="@ + digits(
        v.keys.len(),
    ) + " children="@ + (pids_text(v.children, v.children.len() as int) + "]"@)
}

/// What stands in front of the lines of the children.
pub open spec fn child_prefix(prefix: Seq<char>, is_last: bool) -> Seq<char> {
    if is_last {
        prefix + "    "@
    } else {
        prefix + "│   "@
    }
}

/// Why a view of a tree ends where it does.
pub enum PrintEnd {
    /// All of the tree was shown.
    Whole,
    /// This page is nowhere.
    Missing(PageId),
    /// The bytes of a page cannot be read as what stands there.
    Malformed(PageCodecError),
    /// The header is that of a tree with keys of another length.
    OtherKeys,
    /// A page reads as a node that breaks the rules of nodes: no value stands for it.
    Broken,
}

/// `e` reports why the view of a tree ended early.
pub open spec fn reports(end: PrintEnd, e: IndexError) -> bool {
    match end {
        PrintEnd::Missing(p) => e matches IndexError::BpmError(BpmError::Io(io)) && is_missing(
            io,
            p,
        ),
        PrintEnd::Malformed(c) => e == IndexError::PageError(c),
        PrintEnd::OtherKeys => e == IndexError::Insert(InsertError::InvalidKey),
        _ => false,
    }
}

/// The lines of a view and why it ends.
pub struct Printed {
    pub lines: Seq<Seq<char>>,
    pub end: PrintEnd,
}

impl Printed {
    /// A view without lines.
    pub open spec fn ending(end: PrintEnd) -> Self {
        Printed { lines: Seq::empty(), end }
    }

    /// The view with these lines in front.
    pub open spec fn after(self, lines: Seq<Seq<char>>) -> Self {
        Printed { lines: lines + self.lines, end: self.end }
    }
}

/// What a page is as a node of a tree.
pub enum Shown {
    Leaf(LeafView),
    Internal(InternalView),
    /// Neither a leaf nor an internal node.
    Unknown,
    /// It cannot be shown.
    Bad(PrintEnd),
}

pub open spec fn shown_leaf(pages: Pages, key_len: u32, pid: PageId) -> Shown {
    if !pages.contains_key(pid) {
        Shown::Bad(PrintEnd::Missing(pid))
    } else {
        match leaf_decoded(pages[pid], key_len as int) {
            Ok(v) => if valid_leaf(v) {
                Shown::Leaf(v)
            } else {
                Shown::Bad(PrintEnd::Broken)
            },
            Err(e) => Shown::Bad(PrintEnd::Malformed(e)),
        }
    }
}

pub open spec fn shown(pages: Pages, key_len: u32, pid: PageId) -> Shown {
    match shown_leaf(pages, key_len, pid) {
        Shown::Bad(PrintEnd::Malformed(PageCodecError::WrongPageKind { .. })) => {
            match internal_decoded(pages[pid], key_len as int) {
                Ok(v) => if valid_internal(v) {
                    Shown::Internal(v)
                } else {
                    Shown::Bad(PrintEnd::Broken)
                },
                Err(PageCodecError::WrongPageKind { .. }) => Shown::Unknown,
                Err(e) => Shown::Bad(PrintEnd::Malformed(e)),
            }
        },
        s => s,
    }
}

/// A node that is still to be shown, and how its line starts.
pub struct Pending {
    pub page_id: PageId,
    pub prefix: String,
    pub is_last: bool,
}

#[verifier::ext_equal]
pub struct PendingView {
    pub page_id: PageId,
    pub prefix: Seq<char>,
    pub is_last: bool,
}

impl View for Pending {
    type V = PendingView;

    open spec fn view(&self) -> PendingView {
        PendingView { page_id: self.page_id, prefix: self.prefix@, is_last: self.is_last }
    }
}

impl PendingView {
    pub open spec fn start(self) -> Seq<char> {
        self.prefix + branch_text(self.is_last)
    }
}

pub open spec fn pending_views(stack: Seq<Pending>) -> Seq<PendingView> {
    stack.map_values(|p: Pending| p@)
}

/// The first `n` children are put on the stack, the first of them on top. Where a child has no
/// page, none is put there. The child that comes last is marked where `last` says so.
pub open spec fn with_children(
    stack: Seq<PendingView>,
    children: Seq<PageId>,
    n: nat,
    prefix: Seq<char>,
    last: bool,
) -> Seq<PendingView>
    decreases n,
{
    if n == 0 {
        stack
    } else {
        let page_id = children[n - 1];
        if page_id == INVALID_PAGE_ID {
            with_children(stack, children, (n - 1) as nat, prefix, last)
        } else {
            with_children(
                stack.push(PendingView { page_id, prefix, is_last: last }),
                children,
                (n - 1) as nat,
                prefix,
                false,
            )
        }
    }
}

pub open spec fn truncated_line(prefix: Seq<char>, count: nat, what: Seq<char>) -> Seq<char> {
    prefix + "... truncated after "@ + digits(count) + what
}

/// The lines for the nodes on the stack, from the top, and for what is below them. The pages in
/// `seen` were shown before, and `count` nodes in all.
pub open spec fn walk(
    pages: Pages,
    key_len: u32,
    stack: Seq<PendingView>,
    seen: Set<PageId>,
    count: nat,
) -> Printed
    decreases PRINT_LIMIT - count, stack.len(),
{
    if stack.len() == 0 {
        Printed::ending(PrintEnd::Whole)
    } else {
        let top = stack.last();
        let rest = stack.drop_last();
        let pid = top.page_id;
        if count >= PRINT_LIMIT {
            walk(pages, key_len, rest, seen, count).after(
                seq![truncated_line(top.prefix, count, " nodes"@)],
            )
        } else if seen.contains(pid) {
            walk(pages, key_len, rest, seen, count + 1).after(
                seq![top.start() + "* cycle/revisit: page "@ + pid_text(pid)],
            )
        } else {
            match shown(pages, key_len, pid) {
                Shown::Leaf(v) => walk(pages, key_len, rest, seen.insert(pid), count + 1).after(
                    seq![leaf_line(v, pid, top.prefix, top.is_last)],
                ),
                Shown::Internal(v) => walk(
                    pages,
                    key_len,
                    with_children(
                        rest,
                        v.children,
                        v.children.len(),
                        child_prefix(top.prefix, top.is_last),
                        true,
                    ),
                    seen.insert(pid),
                    count + 1,
                ).after(seq![internal_line(v, pid, top.prefix, top.is_last)]),
                Shown::Unknown => walk(pages, key_len, rest, seen.insert(pid), count + 1).after(
                    seq![
                        top.start() + "unknown page_id="@ + pid_text(pid)
                            + " (neither leaf nor internal)"@,
                    ],
                ),
                Shown::Bad(end) => Printed::ending(end),
            }
        }
    }
}

/// The lines for the leaves from page `pid` on, the first of which has the number `idx`.
pub open spec fn chain_walk(
    pages: Pages,
    key_len: u32,
    pid: PageId,
    seen: Set<PageId>,
    idx: nat,
) -> Printed
    decreases PRINT_LIMIT - idx,
{
    if pid == INVALID_PAGE_ID {
        Printed::ending(PrintEnd::Whole)
    } else if idx >= PRINT_LIMIT {
        Printed::ending(PrintEnd::Whole).after(seq![truncated_line("  "@, idx, " leaves"@)])
    } else if seen.contains(pid) {
        Printed::ending(PrintEnd::Whole).after(
            seq!["  * cycle/revisit at leaf "@ + pid_text(pid)],
        )
    } else {
        match shown_leaf(pages, key_len, pid) {
            Shown::Leaf(v) => chain_walk(
                pages,
                key_len,
                v.next_leaf_id,
                seen.insert(pid),
                idx + 1,
            ).after(
                seq![
                    "  ["@ + digits(idx) + "] page_id="@ + pid_text(pid) + " keys="@ + digits(
                        v.keys.len(),
                    ) + " next_leaf_id="@ + pid_text(v.next_leaf_id),
                ],
            ),
            Shown::Bad(end) => Printed::ending(end),
            _ => Printed::ending(PrintEnd::Whole),
        }
    }
}

/// The line for a tree and the line for its header.
pub open spec fn head_lines(tree: BPlusTree, hd: HeaderPage) -> Seq<Seq<char>> {
    seq![
        "BPlusTree { index_name: "@ + tree.index_name@ + ", header_page_id: "@ + pid_text(
            tree.header_page_id,
        ) + ", key_len: "@ + digits(tree.key_len as nat) + ", leaf_max_size: "@ + digits(
            tree.leaf_max_size as nat,
        ) + ", internal_max_size: "@ + digits(tree.internal_max_size as nat) + " }"@,
        "HeaderPage { root_page_id: "@ + pid_text(hd.root_page_id) + ", first_leaf_id: "@
            + pid_text(hd.first_leaf_id) + " }"@,
    ]
}

/// The nodes of the tree below `root`.
pub open spec fn nodes_printed(pages: Pages, key_len: u32, root: PageId) -> Printed {
    let top = PendingView { page_id: root, prefix: ""@, is_last: true };
    walk(pages, key_len, seq![top], Set::empty(), 0)
}

/// The nodes of a tree and the chain of its leaves.
pub open spec fn body_printed(pages: Pages, key_len: u32, hd: HeaderPage) -> Printed {
    let nodes = nodes_printed(pages, key_len, hd.root_page_id);
    if nodes.end is Whole {
        chain_walk(pages, key_len, hd.first_leaf_id, Set::empty(), 0).after(
            nodes.lines.push("leaf chain:"@),
        )
    } else {
        nodes
    }
}

/// The view of a tree.
pub open spec fn tree_printed(tree: BPlusTree, pages: Pages) -> Printed {
    if !pages.contains_key(tree.header_page_id) {
        Printed::ending(PrintEnd::Missing(tree.header_page_id))
    } else {
        match header_decoded(pages[tree.header_page_id]) {
            Err(e) => Printed::ending(PrintEnd::Malformed(e)),
            Ok(hd) => if hd.key_len != tree.key_len {
                Printed::ending(PrintEnd::OtherKeys)
            } else if hd.root_page_id == INVALID_PAGE_ID {
                Printed::ending(PrintEnd::Whole).after(head_lines(tree, hd).push("(empty)"@))
            } else {
                body_printed(pages, tree.key_len, hd).after(head_lines(tree, hd).push("tree:"@))
            },
        }
    }
}

/// The lines as text.
pub open spec fn line_views(lines: Seq<String>) -> Seq<Seq<char>> {
    lines.map_values(|s: String| s@)
}

fn push_line(out: &mut Vec<String>, line: String)
    ensures
        line_views(final(out)@) == line_views(old(out)@).push(line@),
{
    let ghost before = out@;
    out.push(line);
    assert(line_views(out@) =~= line_views(before).push(line@));
}

/// The lines were added to those of `before`: all of them, with the report of an early end; or,
/// where the pool ran out of frames or pins, those up to there.
pub open spec fn shows(
    bpm: &BufferPoolManager,
    before: Seq<String>,
    after: Seq<String>,
    printed: Printed,
    res: Result<(), IndexError>,
) -> bool {
    let all = line_views(before) + printed.lines;
    match res {
        Ok(_) => printed.end is Whole && line_views(after) == all,
        Err(e) => {
            ||| reports(printed.end, e) && line_views(after) == all
            ||| !bpm.ready() && pool_failed(res) && line_views(after).is_prefix_of(all)
        },
    }
}

proof fn lemma_prefix(a: Seq<Seq<char>>, b: Seq<Seq<char>>, c: Seq<Seq<char>>)
    requires
        a.is_prefix_of(b),
        b.is_prefix_of(c),
    ensures
        a.is_prefix_of(c),
{
    assert(a =~= c.subrange(0, a.len() as int));
}

/// A page that stands in a tree.
spec fn in_tree(pages: Pages, t: TreeShape, pid: PageId) -> bool {
    exists|h: nat, lo: Option<Seq<u8>>, hi: Option<Seq<u8>>, loose: bool| #[trigger]
        subtree(pages, t, pid, h, lo, hi, loose)
}

spec fn all_in_tree(pages: Pages, t: TreeShape, stack: Seq<PendingView>) -> bool {
    forall|i: int| 0 <= i < stack.len() ==> in_tree(pages, t, (#[trigger] stack[i]).page_id)
}

/// Leaves and internal nodes of a tree are shown as what they are.
proof fn lemma_shown(pages: Pages, t: TreeShape, pid: PageId)
    requires
        pages.contains_key(pid),
        match node_of(pages[pid], t.key_len) {
            Some(NodeView::Leaf(v)) => leaf_fits(t, v),
            Some(NodeView::Internal(v)) => internal_fits(t, v),
            None => false,
        },
    ensures
        match node_of(pages[pid], t.key_len) {
            Some(NodeView::Leaf(v)) => shown_leaf(pages, t.key_len, pid) == Shown::Leaf(v) && shown(
                pages,
                t.key_len,
                pid,
            ) == Shown::Leaf(v),
            Some(NodeView::Internal(v)) => shown(pages, t.key_len, pid) == Shown::Internal(v),
            None => false,
        },
{
    reveal(node_of);
    match node_of(pages[pid], t.key_len) {
        Some(NodeView::Leaf(v)) => {
            lemma_strict_is_sorted(v.keys);
        },
        Some(NodeView::Internal(v)) => {
            lemma_strict_is_sorted(v.keys);
        },
        None => {},
    }
}

proof fn lemma_children_in_tree(
    pages: Pages,
    t: TreeShape,
    stack: Seq<PendingView>,
    children: Seq<PageId>,
    n: nat,
    prefix: Seq<char>,
    last: bool,
)
    requires
        n <= children.len(),
        all_in_tree(pages, t, stack),
        forall|i: int| 0 <= i < children.len() ==> in_tree(pages, t, #[trigger] children[i]),
    ensures
        all_in_tree(pages, t, with_children(stack, children, n, prefix, last)),
    decreases n,
{
    if n > 0 {
        let page_id = children[n - 1];
        assert(in_tree(pages, t, children[n - 1]));
        if page_id == INVALID_PAGE_ID {
            lemma_children_in_tree(pages, t, stack, children, (n - 1) as nat, prefix, last);
        } else {
            lemma_children_in_tree(
                pages,
                t,
                stack.push(PendingView { page_id, prefix, is_last: last }),
                children,
                (n - 1) as nat,
                prefix,
                false,
            );
        }
    }
}

proof fn lemma_walk_whole(
    pages: Pages,
    t: TreeShape,
    stack: Seq<PendingView>,
    seen: Set<PageId>,
    count: nat,
)
    requires
        all_in_tree(pages, t, stack),
    ensures
        walk(pages, t.key_len, stack, seen, count).end is Whole,
    decreases PRINT_LIMIT - count, stack.len(),
{
    if stack.len() > 0 {
        let top = stack.last();
        let rest = stack.drop_last();
        let pid = top.page_id;
        assert(in_tree(pages, t, stack[stack.len() - 1].page_id));
        let (h, lo, hi, loose) = choose|
            h: nat,
            lo: Option<Seq<u8>>,
            hi: Option<Seq<u8>>,
            loose: bool,
        | #[trigger] subtree(pages, t, pid, h, lo, hi, loose);
        if count >= PRINT_LIMIT {
            lemma_walk_whole(pages, t, rest, seen, count);
        } else if seen.contains(pid) {
            lemma_walk_whole(pages, t, rest, seen, count + 1);
        } else {
            lemma_shown(pages, t, pid);
            match shown(pages, t.key_len, pid) {
                Shown::Internal(v) => {
                    assert forall|i: int| 0 <= i < v.children.len() implies in_tree(
                        pages,
                        t,
                        #[trigger] v.children[i],
                    ) by {
                        assert(subtree(
                            pages,
                            t,
                            v.children[i],
                            (h - 1) as nat,
                            child_lo(v.keys, lo, i),
                            child_hi(v.keys, hi, i),
                            false,
                        ));
                    }
                    let prefix = child_prefix(top.prefix, top.is_last);
                    let n = v.children.len();
                    lemma_children_in_tree(pages, t, rest, v.children, n, prefix, true);
                    lemma_walk_whole(
                        pages,
                        t,
                        with_children(rest, v.children, n, prefix, true),
                        seen.insert(pid),
                        count + 1,
                    );
                },
                _ => {
                    lemma_walk_whole(pages, t, rest, seen.insert(pid), count + 1);
                },
            }
        }
    }
}

proof fn lemma_chain_whole(
    pages: Pages,
    t: TreeShape,
    ls: Seq<PageId>,
    i: int,
    seen: Set<PageId>,
    idx: nat,
)
    requires
        chain(pages, t, ls, INVALID_PAGE_ID, None, None),
        0 <= i < ls.len(),
    ensures
        chain_walk(pages, t.key_len, ls[i], seen, idx).end is Whole,
    decreases PRINT_LIMIT - idx,
{
    if idx < PRINT_LIMIT && !seen.contains(ls[i]) {
        assert(leaf_in_span(pages, t, ls[i], None, None));
        lemma_shown(pages, t, ls[i]);
        let next = leaf_on(pages, t, ls[i]).next_leaf_id;
        assert(next == chain_next(ls, INVALID_PAGE_ID, i));
        if i + 1 < ls.len() {
            lemma_chain_whole(pages, t, ls, i + 1, seen.insert(ls[i]), idx + 1);
        } else {
            assert(chain_walk(pages, t.key_len, next, seen.insert(ls[i]), idx + 1).end is Whole);
        }
    }
}

/// A tree is shown as a whole.
pub proof fn law_tree_shown(tree: BPlusTree, pages: Pages)
    requires
        tree.wf(pages),
    ensures
        tree_printed(tree, pages).end is Whole,
{
    reveal(header_of);
    let t = tree.shape();
    let hid = tree.header_page_id;
    let hd = header_of(pages[hid])->0;
    if hd.root_page_id != INVALID_PAGE_ID {
        let h = tree.height(pages);
        assert(rooted(pages, t, hid, hd, h));
        assert(subtree(pages, t, hd.root_page_id, h, None, None, true));
        assert(in_tree(pages, t, hd.root_page_id));
        let top = PendingView { page_id: hd.root_page_id, prefix: ""@, is_last: true };
        lemma_walk_whole(pages, t, seq![top], Set::empty(), 0);
        law_tree_chain(pages, t, hid);
        lemma_chain_whole(pages, t, tree_leaves(pages, t, hid), 0, Set::empty(), 0);
    }
}

/// The lines that are there, and those of `left`, make up all of `whole`.
spec fn toward(out: Seq<String>, left: Printed, whole: Printed) -> bool {
    &&& line_views(out) + left.lines == whole.lines
    &&& left.end == whole.end
}

fn push_children(stack: &mut Vec<Pending>, children: &Vec<PageId>, prefix: &str)
    ensures
        pending_views(final(stack)@) == with_children(
            pending_views(old(stack)@),
            children@,
            children@.len(),
            prefix@,
            true,
        ),
{
    let mut i: usize = children.len();
    let mut is_last = true;
    while i > 0
        invariant
            i <= children@.len(),
            with_children(pending_views(stack@), children@, i as nat, prefix@, is_last)
                == with_children(
                pending_views(old(stack)@),
                children@,
                children@.len(),
                prefix@,
                true,
            ),
        decreases i,
    {
        i = i - 1;
        let page_id: PageId = children[i];
        if page_id != INVALID_PAGE_ID {
            let ghost before = stack@;
            stack.push(Pending { page_id, prefix: prefix.to_owned(), is_last });
            assert(pending_views(stack@) =~= pending_views(before).push(
                PendingView { page_id, prefix: prefix@, is_last },
            ));
            is_last = false;
        }
    }
}

impl BPlusTree {
    /// Reads a page as a leaf.
    fn show_leaf(&self, bpm: &mut BufferPoolManager, page_id: PageId) -> (res: Result<
        LeafPage,
        IndexError,
    >)
        requires
            old(bpm).wf(),
            shown_leaf(old(bpm).pages(), self.key_len, page_id) != Shown::Bad(PrintEnd::Broken),
        ensures
            final(bpm).wf(),
            final(bpm).same_pages(old(bpm)),
            old(bpm).ready() ==> final(bpm).ready(),
            match res {
                Ok(leaf) => shown_leaf(old(bpm).pages(), self.key_len, page_id) == Shown::Leaf(
                    leaf@,
                ),
                Err(e) => {
                    ||| shown_leaf(old(bpm).pages(), self.key_len, page_id) matches Shown::Bad(end)
                        && reports(end, e)
                    ||| pool_failed(res) && !old(bpm).ready()
                },
            },
    {
        let data = match bpm.load(page_id) {
            Ok(d) => d,
            Err(e) => { return Err(IndexError::BpmError(e)); },
        };
        match LeafPage::decode(data.as_slice(), self.key_len) {
            Ok(leaf) => Ok(leaf),
            Err(e) => Err(IndexError::PageError(e)),
        }
    }

    /// Reads a page as a leaf or an internal node; `None` where it is neither.
    fn show(&self, bpm: &mut BufferPoolManager, page_id: PageId) -> (res: Result<
        Option<Page>,
        IndexError,
    >)
        requires
            old(bpm).wf(),
            shown(old(bpm).pages(), self.key_len, page_id) != Shown::Bad(PrintEnd::Broken),
        ensures
            final(bpm).wf(),
            final(bpm).same_pages(old(bpm)),
            old(bpm).ready() ==> final(bpm).ready(),
            match res {
                Ok(Some(Page::Leaf(leaf))) => shown(old(bpm).pages(), self.key_len, page_id)
                    == Shown::Leaf(leaf@),
                Ok(Some(Page::Internal(node))) => shown(old(bpm).pages(), self.key_len, page_id)
                    == Shown::Internal(node@),
                Ok(None) => shown(old(bpm).pages(), self.key_len, page_id) == Shown::Unknown,
                Err(e) => {
                    ||| shown(old(bpm).pages(), self.key_len, page_id) matches Shown::Bad(end)
                        && reports(end, e)
                    ||| pool_failed(res) && !old(bpm).ready()
                },
            },
    {
        let data = match bpm.load(page_id) {
            Ok(d) => d,
            Err(e) => { return Err(IndexError::BpmError(e)); },
        };
        match LeafPage::decode(data.as_slice(), self.key_len) {
            Ok(leaf) => Ok(Some(Page::Leaf(leaf))),
            Err(PageCodecError::WrongPageKind { .. }) => match InternalPage::decode(
                data.as_slice(),
                self.key_len,
            ) {
                Ok(node) => Ok(Some(Page::Internal(node))),
                Err(PageCodecError::WrongPageKind { .. }) => Ok(None),
                Err(e) => Err(IndexError::PageError(e)),
            },
            Err(e) => Err(IndexError::PageError(e)),
        }
    }

    /// Adds the lines for the nodes of the tree below `root`.
    fn print_nodes(&self, bpm: &mut BufferPoolManager, root: PageId, out: &mut Vec<String>) -> (res:
        Result<(), IndexError>)
        requires
            old(bpm).wf(),
            nodes_printed(old(bpm).pages(), self.key_len, root).end !is Broken,
        ensures
            final(bpm).wf(),
            final(bpm).same_pages(old(bpm)),
            old(bpm).ready() ==> final(bpm).ready(),
            shows(
                old(bpm),
                old(out)@,
                final(out)@,
                nodes_printed(old(bpm).pages(), self.key_len, root),
                res,
            ),
    {
        let ghost pages = bpm.pages();
        let ghost whole = nodes_printed(pages, self.key_len, root).after(line_views(out@));
        let mut stack: Vec<Pending> = Vec::new();
        stack.push(Pending { page_id: root, prefix: "".to_owned(), is_last: true });
        let mut seen: HashSet<PageId> = HashSet::new();
        let mut count: usize = 0;
        assert(pending_views(stack@) =~= seq![
            PendingView { page_id: root, prefix: ""@, is_last: true },
        ]);
        assert(seen@ =~= Set::empty());
        while stack.len() > 0
            invariant
                bpm.wf(),
                bpm.same_pages(old(bpm)),
                old(bpm).ready() ==> bpm.ready(),
                pages == old(bpm).pages(),
                count <= PRINT_LIMIT,
                whole == nodes_printed(pages, self.key_len, root).after(line_views(old(out)@)),
                whole.end !is Broken,
                toward(
                    out@,
                    walk(pages, self.key_len, pending_views(stack@), seen@, count as nat),
                    whole,
                ),
            decreases PRINT_LIMIT - count, stack@.len(),
        {
            let ghost stack0 = pending_views(stack@);
            let ghost before = line_views(out@);
            let ghost seen0 = seen@;
            let ghost left0 = walk(pages, self.key_len, stack0, seen0, count as nat);
            let top = match stack.pop() {
                Some(t) => t,
                None => { return Ok(()); },
            };
            assert(pending_views(stack@) =~= stack0.drop_last());
            assert(top@ == stack0.last());
            let branch = if top.is_last {
                "└── "
            } else {
                "├── "
            };
            let mut s;
            if count >= PRINT_LIMIT {
                s = joined(top.prefix.as_str(), "... truncated after ");
                s.append(decimal(count as u64).as_str());
                s.append(" nodes");
            } else {
                count = count + 1;
                s = joined(top.prefix.as_str(), branch);
                if !seen.insert(top.page_id) {
                    s.append("* cycle/revisit: page ");
                    s.append(fmt_pid(top.page_id).as_str());
                } else {
                    match self.show(bpm, top.page_id) {
                        Ok(Some(Page::Leaf(leaf))) => {
                            assert(leaf@.keys.len() == leaf.keys@.len());
                            s.append("leaf page_id=");
                            s.append(fmt_pid(top.page_id).as_str());
                            s.append(" keys=");
                            s.append(decimal(leaf.keys.len() as u64).as_str());
                            s.append(" next_leaf_id=");
                            s.append(fmt_pid(leaf.next_leaf_id).as_str());
                        },
                        Ok(Some(Page::Internal(node))) => {
                            assert(node@.keys.len() == node.keys@.len());
                            s.append("internal page_id=");
                            s.append(fmt_pid(top.page_id).as_str());
                            s.append(" keys=");
                            s.append(decimal(node.keys.len() as u64).as_str());
                            s.append(" children=");
                            s.append(fmt_children(&node.children).as_str());
                            let below = if top.is_last {
                                joined(top.prefix.as_str(), "    ")
                            } else {
                                joined(top.prefix.as_str(), "│   ")
                            };
                            push_children(&mut stack, &node.children, below.as_str());
                        },
                        Ok(None) => {
                            s.append("unknown page_id=");
                            s.append(fmt_pid(top.page_id).as_str());
                            s.append(" (neither leaf nor internal)");
                        },
                        Err(e) => {
                            assert(line_views(out@) + Seq::empty() =~= line_views(out@));
                            return Err(e);
                        },
                    }
                }
            }
            push_line(out, s);
            proof {
                if seen0.contains(top.page_id) {
                    assert(seen@ =~= seen0);
                }
                let left = walk(pages, self.key_len, pending_views(stack@), seen@, count as nat);
                assert(left0 == left.after(seq![s@]));
                assert(before + (seq![s@] + left.lines) =~= before.push(s@) + left.lines);
            }
        }
        assert(line_views(out@) + Seq::empty() =~= line_views(out@));
        Ok(())
    }

    /// Adds the lines for the leaves from `first` on.
    fn print_chain(&self, bpm: &mut BufferPoolManager, first: PageId, out: &mut Vec<String>) -> (
        res: Result<(), IndexError>)
        requires
            old(bpm).wf(),
            chain_walk(old(bpm).pages(), self.key_len, first, Set::empty(), 0).end !is Broken,
        ensures
            final(bpm).wf(),
            final(bpm).same_pages(old(bpm)),
            old(bpm).ready() ==> final(bpm).ready(),
            shows(
                old(bpm),
                old(out)@,
                final(out)@,
                chain_walk(old(bpm).pages(), self.key_len, first, Set::empty(), 0),
                res,
            ),
    {
        let ghost pages = bpm.pages();
        let ghost whole = chain_walk(pages, self.key_len, first, Set::empty(), 0).after(
            line_views(out@),
        );
        let mut leaf_id: PageId = first;
        let mut seen: HashSet<PageId> = HashSet::new();
        let mut idx: usize = 0;
        assert(seen@ =~= Set::empty());
        while leaf_id != INVALID_PAGE_ID
            invariant_except_break
                toward(
                    out@,
                    chain_walk(pages, self.key_len, leaf_id, seen@, idx as nat),
                    whole,
                ),
            invariant
                bpm.wf(),
                bpm.same_pages(old(bpm)),
                old(bpm).ready() ==> bpm.ready(),
                pages == old(bpm).pages(),
                idx <= PRINT_LIMIT,
                whole == chain_walk(pages, self.key_len, first, Set::empty(), 0).after(
                    line_views(old(out)@),
                ),
                whole.end !is Broken,
            ensures
                toward(out@, Printed::ending(PrintEnd::Whole), whole),
            decreases PRINT_LIMIT - idx,
        {
            let ghost before = line_views(out@);
            if idx >= PRINT_LIMIT {
                let mut s = joined("  ", "... truncated after ");
                s.append(decimal(idx as u64).as_str());
                s.append(" leaves");
                push_line(out, s);
                assert(line_views(out@) + Seq::empty() =~= before + (seq![s@] + Seq::empty()));
                break ;
            }
            if !seen.insert(leaf_id) {
                let s = joined("  * cycle/revisit at leaf ", fmt_pid(leaf_id).as_str());
                push_line(out, s);
                assert(line_views(out@) + Seq::empty() =~= before + (seq![s@] + Seq::empty()));
                break ;
            }
            match self.show_leaf(bpm, leaf_id) {
                Ok(leaf) => {
                    assert(leaf@.keys.len() == leaf.keys@.len());
                    let mut s = joined("  [", decimal(idx as u64).as_str());
                    s.append("] page_id=");
                    s.append(fmt_pid(leaf_id).as_str());
                    s.append(" keys=");
                    s.append(decimal(leaf.keys.len() as u64).as_str());
                    s.append(" next_leaf_id=");
                    s.append(fmt_pid(leaf.next_leaf_id).as_str());
                    push_line(out, s);
                    leaf_id = leaf.next_leaf_id;
                    idx = idx + 1;
                    proof {
                        let left = chain_walk(pages, self.key_len, leaf_id, seen@, idx as nat);
                        assert(before + (seq![s@] + left.lines) =~= before.push(s@) + left.lines);
                    }
                },
                Err(e) => {
                    assert(line_views(out@) + Seq::empty() =~= line_views(out@));
                    return Err(e);
                },
            }
        }
        assert(line_views(out@) + Seq::empty() =~= line_views(out@));
        Ok(())
    }

    /// Adds a view of the structure of the tree to `out`, line by line: its header, its nodes and
    /// its chain of leaves. The pages need not make up a tree: what is found is shown, up to the
    /// first page that cannot be read.
    pub fn print_tree(&self, bpm: &mut BufferPoolManager, out: &mut Vec<String>) -> (res: Result<
        (),
        IndexError,
    >)
        requires
            old(bpm).wf(),
            tree_printed(*self, old(bpm).pages()).end !is Broken,
        ensures
            final(bpm).wf(),
            final(bpm).same_pages(old(bpm)),
            old(bpm).ready() ==> final(bpm).ready(),
            shows(
                old(bpm),
                old(out)@,
                final(out)@,
                tree_printed(*self, old(bpm).pages()),
                res,
            ),
    {
        let ghost pages = bpm.pages();
        let ghost start = line_views(out@);
        proof {
            reveal(header_of);
        }
        let header = match self.read_header(bpm) {
            Ok(h) => h,
            Err(e) => {
                assert(start + Seq::empty() =~= start);
                return Err(e);
            },
        };
        let mut s = joined("BPlusTree { index_name: ", self.index_name.as_str());
        s.append(", header_page_id: ");
        s.append(fmt_pid(self.header_page_id).as_str());
        s.append(", key_len: ");
        s.append(decimal(self.key_len as u64).as_str());
        s.append(", leaf_max_size: ");
        s.append(decimal(self.leaf_max_size as u64).as_str());
        s.append(", internal_max_size: ");
        s.append(decimal(self.internal_max_size as u64).as_str());
        s.append(" }");
        push_line(out, s);
        let mut s2 = joined("HeaderPage { root_page_id: ", fmt_pid(header.root_page_id).as_str());
        s2.append(", first_leaf_id: ");
        s2.append(fmt_pid(header.first_leaf_id).as_str());
        s2.append(" }");
        push_line(out, s2);
        let ghost head = head_lines(*self, header);
        assert(line_views(out@) =~= start + head);
        if header.root_page_id == INVALID_PAGE_ID {
            push_line(out, "(empty)".to_owned());
            assert(line_views(out@) =~= start + (head.push("(empty)"@) + Seq::empty()));
            return Ok(());
        }
        push_line(out, "tree:".to_owned());
        let ghost head = head.push("tree:"@);
        let ghost nodes = nodes_printed(pages, self.key_len, header.root_page_id);
        let ghost whole = body_printed(pages, self.key_len, header);
        assert(line_views(out@) =~= start + head);
        assert(start + head + nodes.lines =~= start + (head + nodes.lines));
        match self.print_nodes(bpm, header.root_page_id, out) {
            Ok(_) => {},
            Err(e) => {
                proof {
                    lemma_prefix(line_views(out@), start + head + nodes.lines, start + (head
                        + whole.lines));
                }
                return Err(e);
            },
        }
        push_line(out, "leaf chain:".to_owned());
        let ghost chain = chain_walk(
            pages,
            self.key_len,
            header.first_leaf_id,
            Set::empty(),
            0,
        );
        proof {
            let mid = line_views(out@);
            assert(mid =~= start + head + nodes.lines.push("leaf chain:"@));
            assert(mid + chain.lines =~= start + (head + whole.lines));
        }
        self.print_chain(bpm, header.first_leaf_id, out)
    }
}

} // verus!
