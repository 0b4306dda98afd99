//! Line diffs of a patch, in unified form.

use vstd::prelude::*;
use similar::{ChangeTag, TextDiff};
use crate::text::{decimal, decimal_string};

verus! {

/// What a diff line does.
#[derive(PartialEq, Eq, Structural, Clone, Copy, Debug)]
pub enum ChangeKind {
    Delete,
    Insert,
    Equal,
}

pub open spec fn kind_code(k: ChangeKind) -> int {
    match k {
        ChangeKind::Delete => 0,
        ChangeKind::Insert => 1,
        ChangeKind::Equal => 2,
    }
}

/// One line of a line diff: its kind, its text, and whether the text lacks a
/// line break at its end.
pub struct LineChange {
    pub kind: ChangeKind,
    pub text: String,
    pub missing_newline: bool,
}

impl View for LineChange {
    type V = (int, Seq<char>, bool);

    open spec fn view(&self) -> (int, Seq<char>, bool) {
        (kind_code(self.kind), self.text@, self.missing_newline)
    }
}

/// One hunk of a grouped line diff: the old and the new line ranges it
/// covers (from the first op's start to the last op's end) and its changes.
pub struct Hunk {
    pub old_start: usize,
    pub old_end: usize,
    pub new_start: usize,
    pub new_end: usize,
    pub changes: Vec<LineChange>,
}

/// `Hunk` over mathematical values.
pub struct HunkView {
    pub old_start: int,
    pub old_end: int,
    pub new_start: int,
    pub new_end: int,
    pub changes: Seq<(int, Seq<char>, bool)>,
}

impl View for Hunk {
    type V = HunkView;

    open spec fn view(&self) -> HunkView {
        HunkView {
            old_start: self.old_start as int,
            old_end: self.old_end as int,
            new_start: self.new_start as int,
            new_end: self.new_end as int,
            changes: self.changes@.map_values(|c: LineChange| c@),
        }
    }
}

/// One diff op of a group, as `similar` hands it out: its old and new
/// line ranges and the changes it holds.
pub struct OpChanges {
    pub old_start: usize,
    pub old_end: usize,
    pub new_start: usize,
    pub new_end: usize,
    pub changes: Vec<LineChange>,
}

/// An op (or a hunk) over mathematical values.
pub type OpView = HunkView;

impl View for OpChanges {
    type V = OpView;

    open spec fn view(&self) -> OpView {
        HunkView {
            old_start: self.old_start as int,
            old_end: self.old_end as int,
            new_start: self.new_start as int,
            new_end: self.new_end as int,
            changes: self.changes@.map_values(|c: LineChange| c@),
        }
    }
}

/// The groups of diff ops that the `similar` crate lists for a line diff of
/// `before` against `after` with `context` lines of context: per op its line
/// ranges and, per change, a kind code (0 delete, 1 insert, 2 equal), the
/// line, and whether it lacks a trailing line break.
pub uninterp spec fn similar_grouped_ops(before: Seq<char>, after: Seq<char>, context: nat) -> Seq<Seq<OpView>>;

pub open spec fn ends_with_line_break(s: Seq<char>) -> bool {
    s.len() > 0 && (s.last() == '\r' || s.last() == '\n')
}

/// `similar::TextDiff::from_lines(before, after)`, then `grouped_ops(context)`;
/// per op its `old_range()`, its `new_range()` and `iter_changes` on it, read
/// as (tag, value, missing_newline). Claimed: the groups are
/// `similar_grouped_ops` of the arguments; no group is empty
/// (`group_diff_ops` never pushes an empty one); a change lacks a newline
/// exactly when its text does not end in `\r` or `\n`
/// (`Change::missing_newline`); line indices stay below `usize::MAX` (they
/// count lines of a text whose length fits in an `isize`). `context` is at
/// most half of `usize::MAX`: `group_diff_ops` doubles it.
#[verifier::external_body]
pub(crate) fn grouped_ops(before: &str, after: &str, context: usize) -> (r: Vec<Vec<OpChanges>>)
    requires
        context <= usize::MAX / 2,
    ensures
        r@.map_values(|g: Vec<OpChanges>| g@.map_values(|o: OpChanges| o@)) == similar_grouped_ops(
            before@,
            after@,
            context as nat,
        ),
        forall|k: int| 0 <= k < r@.len() ==> (#[trigger] r@[k])@.len() > 0,
        forall|k: int, m: int|
            0 <= k < r@.len() && 0 <= m < r@[k]@.len() ==> (#[trigger] r@[k]@[m]).old_start < usize::MAX
                && r@[k]@[m].new_start < usize::MAX,
        forall|k: int, m: int, i: int|
            0 <= k < r@.len() && 0 <= m < r@[k]@.len() && 0 <= i < r@[k]@[m].changes@.len() ==> (
            #[trigger] r@[k]@[m].changes@[i]).missing_newline == !ends_with_line_break(
                r@[k]@[m].changes@[i].text@,
            ),
{
    let diff = TextDiff::from_lines(before, after);
    diff.grouped_ops(context).iter().map(|g| g.iter().map(|op| OpChanges {
        old_start: op.old_range().start, old_end: op.old_range().end,
        new_start: op.new_range().start, new_end: op.new_range().end,
        changes: diff.iter_changes(op).map(|c| LineChange {
            kind: match c.tag() {
                ChangeTag::Delete => ChangeKind::Delete,
                ChangeTag::Insert => ChangeKind::Insert,
                ChangeTag::Equal => ChangeKind::Equal,
            },
            text: c.value().to_string(), missing_newline: c.missing_newline(),
        }).collect(),
    }).collect()).collect()
}

/// The changes of the ops, one op after the other.
pub open spec fn flat_changes(g: Seq<OpView>) -> Seq<(int, Seq<char>, bool)>
    decreases g.len(),
{
    if g.len() == 0 {
        Seq::empty()
    } else {
        flat_changes(g.drop_last()) + g.last().changes
    }
}

/// The hunk a group of ops makes: from the first op's starts to the last
/// op's ends, with all their changes.
pub open spec fn hunk_spec(g: Seq<OpView>) -> HunkView {
    HunkView {
        old_start: g[0].old_start,
        old_end: g.last().old_end,
        new_start: g[0].new_start,
        new_end: g.last().new_end,
        changes: flat_changes(g),
    }
}

/// The hunks of the groups.
pub open spec fn hunks_spec(gs: Seq<Seq<OpView>>) -> Seq<HunkView> {
    gs.map_values(|g: Seq<OpView>| hunk_spec(g))
}

fn clone_change(c: &LineChange) -> (r: LineChange)
    ensures
        r@ == c@,
        r.missing_newline == c.missing_newline,
        r.text@ == c.text@,
{
    LineChange { kind: c.kind, text: c.text.clone(), missing_newline: c.missing_newline }
}

/// The hunk a non-empty group of ops makes.
pub fn hunk_of(g: &Vec<OpChanges>) -> (h: Hunk)
    requires
        g@.len() > 0,
    ensures
        h@ == hunk_spec(g@.map_values(|o: OpChanges| o@)),
{
    let ghost gv = g@.map_values(|o: OpChanges| o@);
    let mut changes: Vec<LineChange> = Vec::new();
    let mut i: usize = 0;
    proof {
        assert(gv.subrange(0, 0) =~= Seq::<OpView>::empty());
        assert(changes@.map_values(|c: LineChange| c@) =~= flat_changes(gv.subrange(0, 0)));
    }
    while i < g.len()
        invariant
            i <= g@.len(),
            gv == g@.map_values(|o: OpChanges| o@),
            changes@.map_values(|c: LineChange| c@) == flat_changes(gv.subrange(0, i as int)),
        decreases g@.len() - i,
    {
        let op = &g[i];
        let ghost base = changes@.map_values(|c: LineChange| c@);
        let mut j: usize = 0;
        proof {
            assert(op@.changes.subrange(0, 0) =~= Seq::<(int, Seq<char>, bool)>::empty());
            assert(base + op@.changes.subrange(0, 0) =~= base);
        }
        while j < op.changes.len()
            invariant
                j <= op.changes@.len(),
                changes@.map_values(|c: LineChange| c@) == base + op@.changes.subrange(0, j as int),
            decreases op.changes@.len() - j,
        {
            let ghost before = changes@.map_values(|c: LineChange| c@);
            let c = clone_change(&op.changes[j]);
            changes.push(c);
            proof {
                assert(changes@.map_values(|c: LineChange| c@) =~= before.push(c@));
                assert(op@.changes.subrange(0, j + 1) =~= op@.changes.subrange(0, j as int).push(
                    op@.changes[j as int],
                ));
                assert(base + op@.changes.subrange(0, j + 1) =~= (base + op@.changes.subrange(
                    0,
                    j as int,
                )).push(c@));
            }
            j = j + 1;
        }
        proof {
            assert(op@.changes.subrange(0, op@.changes.len() as int) =~= op@.changes);
            assert(gv.subrange(0, i + 1).drop_last() =~= gv.subrange(0, i as int));
            assert(gv.subrange(0, i + 1).last() == op@);
        }
        i = i + 1;
    }
    proof {
        assert(gv.subrange(0, gv.len() as int) =~= gv);
    }
    let last = g.len() - 1;
    Hunk {
        old_start: g[0].old_start,
        old_end: g[last].old_end,
        new_start: g[0].new_start,
        new_end: g[last].new_end,
        changes,
    }
}

/// The hunks of non-empty groups of ops.
pub fn hunks_of(groups: &Vec<Vec<OpChanges>>) -> (r: Vec<Hunk>)
    requires
        forall|k: int| 0 <= k < groups@.len() ==> (#[trigger] groups@[k])@.len() > 0,
    ensures
        r@.map_values(|h: Hunk| h@) == hunks_spec(
            groups@.map_values(|g: Vec<OpChanges>| g@.map_values(|o: OpChanges| o@)),
        ),
{
    let ghost gs = groups@.map_values(|g: Vec<OpChanges>| g@.map_values(|o: OpChanges| o@));
    let mut out: Vec<Hunk> = Vec::new();
    let mut k: usize = 0;
    while k < groups.len()
        invariant
            k <= groups@.len(),
            gs == groups@.map_values(|g: Vec<OpChanges>| g@.map_values(|o: OpChanges| o@)),
            forall|m: int| 0 <= m < groups@.len() ==> (#[trigger] groups@[m])@.len() > 0,
            out@.map_values(|h: Hunk| h@) == hunks_spec(gs.subrange(0, k as int)),
        decreases groups@.len() - k,
    {
        let ghost before = out@.map_values(|h: Hunk| h@);
        let h = hunk_of(&groups[k]);
        out.push(h);
        proof {
            assert(out@.map_values(|h: Hunk| h@) =~= before.push(h@));
            assert(hunks_spec(gs.subrange(0, k + 1)) =~= hunks_spec(gs.subrange(0, k as int)).push(
                hunk_spec(gs[k as int]),
            ));
        }
        k = k + 1;
    }
    proof {
        assert(gs.subrange(0, gs.len() as int) =~= gs);
    }
    out
}

pub open spec fn marker(code: int) -> Seq<char> {
    if code == 0 {
        seq!['-']
    } else if code == 1 {
        seq!['+']
    } else {
        seq![' ']
    }
}

pub open spec fn change_text(c: (int, Seq<char>, bool)) -> Seq<char> {
    marker(c.0) + c.1 + if c.2 {
        seq!['\n']
    } else {
        Seq::empty()
    }
}

pub open spec fn changes_text(cs: Seq<(int, Seq<char>, bool)>) -> Seq<char>
    decreases cs.len(),
{
    if cs.len() == 0 {
        Seq::empty()
    } else {
        changes_text(cs.drop_last()) + change_text(cs.last())
    }
}

/// A hunk range as unified diffs write it: `start,len` counted from 1, just
/// the start for one line, and `start,0` (the line before) for none.
pub open spec fn range_text(start: int, end: int) -> Seq<char> {
    let len: int = if end >= start {
        end - start
    } else {
        0
    };
    if len == 1 {
        decimal((start + 1) as nat)
    } else if len == 0 {
        decimal(start as nat) + seq![',', '0']
    } else {
        decimal((start + 1) as nat) + seq![','] + decimal(len as nat)
    }
}

/// `@@ -old +new @@` and a line break.
pub open spec fn hunk_header(h: HunkView) -> Seq<char> {
    seq!['@', '@', ' ', '-'] + range_text(h.old_start, h.old_end) + seq![' ', '+'] + range_text(
        h.new_start,
        h.new_end,
    ) + seq![' ', '@', '@', '\n']
}

pub open spec fn hunks_text(hs: Seq<HunkView>) -> Seq<char>
    decreases hs.len(),
{
    if hs.len() == 0 {
        Seq::empty()
    } else {
        hunks_text(hs.drop_last()) + hunk_header(hs.last()) + changes_text(hs.last().changes)
    }
}

/// The unified text: `--- left`, `+++ right`, then each hunk: its range
/// line and its changes, each with its marker and a line break added where
/// the change lacks one.
pub open spec fn unified_text(hs: Seq<HunkView>, left: Seq<char>, right: Seq<char>) -> Seq<char> {
    seq!['-', '-', '-', ' '] + left + seq!['\n', '+', '+', '+', ' '] + right + seq!['\n'] + hunks_text(hs)
}

fn render_range(start: usize, end: usize) -> (s: String)
    requires
        start < usize::MAX,
    ensures
        s@ == range_text(start as int, end as int),
{
    let len: usize = if end >= start {
        end - start
    } else {
        0
    };
    proof {
        reveal_strlit(",0");
        reveal_strlit(",");
    }
    if len == 1 {
        decimal_string(start + 1)
    } else if len == 0 {
        decimal_string(start).concat(",0")
    } else {
        decimal_string(start + 1).concat(",").concat(decimal_string(len).as_str())
    }
}

fn render_changes(out: String, changes: &Vec<LineChange>) -> (d: String)
    ensures
        d@ == out@ + changes_text(changes@.map_values(|c: LineChange| c@)),
{
    let ghost cs = changes@.map_values(|c: LineChange| c@);
    let ghost head = out@;
    let mut out = out;
    let mut i: usize = 0;
    proof {
        assert(cs.subrange(0, 0) =~= Seq::<(int, Seq<char>, bool)>::empty());
        assert(out@ =~= head + changes_text(cs.subrange(0, 0)));
    }
    while i < changes.len()
        invariant
            i <= changes@.len(),
            cs == changes@.map_values(|c: LineChange| c@),
            out@ == head + changes_text(cs.subrange(0, i as int)),
        decreases changes@.len() - i,
    {
        let c = &changes[i];
        let m = match c.kind {
            ChangeKind::Delete => "-",
            ChangeKind::Insert => "+",
            ChangeKind::Equal => " ",
        };
        proof {
            reveal_strlit("\n");
            reveal_strlit("-");
            reveal_strlit("+");
            reveal_strlit(" ");
            assert(m@ =~= marker(kind_code(c.kind)));
        }
        out = out.concat(m).concat(c.text.as_str());
        if c.missing_newline {
            out = out.concat("\n");
        }
        proof {
            assert(cs.subrange(0, i + 1).drop_last() =~= cs.subrange(0, i as int));
            assert(cs.subrange(0, i + 1).last() == c@);
            assert(out@ =~= head + changes_text(cs.subrange(0, i + 1)));
        }
        i = i + 1;
    }
    proof {
        assert(cs.subrange(0, changes@.len() as int) =~= cs);
    }
    out
}

/// Render hunks in unified form.
pub fn render_unified(hunks: &Vec<Hunk>, left: &str, right: &str) -> (d: String)
    requires
        forall|k: int| 0 <= k < hunks@.len() ==> (#[trigger] hunks@[k]).old_start < usize::MAX
            && hunks@[k].new_start < usize::MAX,
    ensures
        d@ == unified_text(hunks@.map_values(|h: Hunk| h@), left@, right@),
{
    proof {
        reveal_strlit("--- ");
        reveal_strlit("\n+++ ");
        reveal_strlit("\n");
        reveal_strlit("@@ -");
        reveal_strlit(" +");
        reveal_strlit(" @@\n");
    }
    let ghost hs = hunks@.map_values(|h: Hunk| h@);
    let mut out = "--- ".to_string().concat(left).concat("\n+++ ").concat(right).concat("\n");
    let ghost head = out@;
    assert(head =~= seq!['-', '-', '-', ' '] + left@ + seq!['\n', '+', '+', '+', ' '] + right@ + seq!['\n']);
    let mut k: usize = 0;
    proof {
        assert(hs.subrange(0, 0) =~= Seq::<HunkView>::empty());
        assert(out@ =~= head + hunks_text(hs.subrange(0, 0)));
    }
    while k < hunks.len()
        invariant
            k <= hunks@.len(),
            hs == hunks@.map_values(|h: Hunk| h@),
            forall|j: int| 0 <= j < hunks@.len() ==> (#[trigger] hunks@[j]).old_start < usize::MAX
                && hunks@[j].new_start < usize::MAX,
            out@ == head + hunks_text(hs.subrange(0, k as int)),
        decreases hunks@.len() - k,
    {
        let h = &hunks[k];
        let ghost before = out@;
        let out1 = out.concat("@@ -").concat(render_range(h.old_start, h.old_end).as_str()).concat(" +").concat(
            render_range(h.new_start, h.new_end).as_str(),
        ).concat(" @@\n");
        proof {
            reveal_strlit("@@ -");
            reveal_strlit(" +");
            reveal_strlit(" @@\n");
            assert(out1@ =~= before + hunk_header(h@));
        }
        out = render_changes(out1, &h.changes);
        proof {
            assert(hs.subrange(0, k + 1).drop_last() =~= hs.subrange(0, k as int));
            assert(hs.subrange(0, k + 1).last() == h@);
            assert(out@ =~= head + hunks_text(hs.subrange(0, k + 1)));
        }
        k = k + 1;
    }
    proof {
        assert(hs.subrange(0, hunks@.len() as int) =~= hs);
    }
    out
}

} // verus!
