//! Per-repository summaries, their ranking by commit count, and the text
//! report.
use vstd::prelude::*;
use crate::walk::WalkResult;
use vstd::string::StringExecFns;

verus! {

/// How far the working tree has drifted from a historical snapshot.
#[derive(Clone, Copy, Debug, PartialEq, Eq, Structural)]
pub struct ChangeStats {
    pub files_changed: usize,
    pub insertions: usize,
    pub deletions: usize,
}

/// One repository's line in the ranking.
#[derive(Debug)]
pub struct RepoSummary {
    pub name: String,
    pub commits: u64,
    pub stats: ChangeStats,
}

impl ChangeStats {
    pub fn new(files_changed: usize, insertions: usize, deletions: usize) -> (r: ChangeStats)
        ensures
            r == (ChangeStats { files_changed, insertions, deletions }),
    {
        ChangeStats { files_changed, insertions, deletions }
    }
}

impl RepoSummary {
    pub fn new(name: String, commits: u64, stats: ChangeStats) -> (r: RepoSummary)
        ensures
            r.name@ == name@,
            r.commits == commits,
            r.stats == stats,
    {
        RepoSummary { name, commits, stats }
    }

    /// The summary of a walked repository: none when no commit qualified
    /// (that repository is left out of the ranking, which is no error),
    /// otherwise the qualifying count with the working-tree drift measured
    /// from the oldest qualifying commit.
    pub fn from_walk(name: String, walk: &WalkResult, stats: ChangeStats) -> (r: Option<
        RepoSummary,
    >)
        ensures
            r is None <==> walk.count == 0,
            r is Some ==> {
                &&& r->0.name@ == name@
                &&& r->0.commits == walk.count
                &&& r->0.stats == stats
            },
    {
        if walk.count == 0 {
            None
        } else {
            Some(RepoSummary { name, commits: walk.count, stats })
        }
    }
}

/// `order` lists the positions of `s` from most to fewest commits, each
/// position once, and equal counts keep the order they had in `s`.
pub open spec fn is_stable_ranking(s: Seq<RepoSummary>, order: Seq<usize>) -> bool {
    &&& order.len() == s.len()
    &&& forall|i: int| 0 <= i < order.len() ==> #[trigger] order[i] < s.len()
    &&& forall|i: int, j: int| 0 <= i < j < order.len() ==> order[i] != order[j]
    &&& forall|x: usize| x < s.len() ==> #[trigger] order.contains(x)
    &&& forall|i: int, j: int|
        0 <= i < j < order.len() ==> s[order[i] as int].commits >= s[order[j] as int].commits
    &&& forall|i: int, j: int|
        0 <= i < j < order.len() && s[order[i] as int].commits == s[order[j] as int].commits
            ==> order[i] < order[j]
}

/// The ranking of `summaries`: their positions sorted by commit count,
/// most first, ties in input order.
pub fn rank_order(summaries: &Vec<RepoSummary>) -> (r: Vec<usize>)
    ensures
        is_stable_ranking(summaries@, r@),
{
    let n = summaries.len();
    let mut order: Vec<usize> = Vec::new();
    let mut k: usize = 0;
    while k < n
        invariant
            n == summaries.len(),
            k <= n,
            is_stable_ranking(summaries@.subrange(0, k as int), order@),
            forall|i: int| 0 <= i < order.len() ==> #[trigger] order@[i] < k,
        decreases n - k,
    {
        let c = summaries[k].commits;
        let ghost s = summaries@;
        let mut p: usize = 0;
        while p < order.len() && summaries[order[p]].commits >= c
            invariant
                n == summaries.len(),
                s == summaries@,
                k < n,
                p <= order.len(),
                c == s[k as int].commits,
                forall|i: int| 0 <= i < order.len() ==> #[trigger] order@[i] < k,
                forall|i: int| 0 <= i < p ==> #[trigger] s[order@[i] as int].commits >= c,
            decreases order.len() - p,
        {
            p = p + 1;
        }
        let ghost old_order = order@;
        assert(is_stable_ranking(s.subrange(0, k as int), old_order));
        assert forall|i: int, j: int| 0 <= i < j < old_order.len() implies s[old_order[i] as int].commits
            >= s[old_order[j] as int].commits by {
            assert(s.subrange(0, k as int)[old_order[i] as int] == s[old_order[i] as int]);
            assert(s.subrange(0, k as int)[old_order[j] as int] == s[old_order[j] as int]);
        }
        assert forall|i: int| p <= i < old_order.len() implies #[trigger] s[old_order[i] as int].commits
            < c by {
            assert(s[old_order[p as int] as int].commits < c);
            if i > p {
                assert(s[old_order[p as int] as int].commits >= s[old_order[i] as int].commits);
            }
        }
        order.insert(p, k);
        let ghost sub = s.subrange(0, k as int + 1);
        assert forall|i: int| 0 <= i < order.len() implies #[trigger] order@[i] < k + 1 by {
            if i > p {
                assert(order@[i] == old_order[i - 1]);
            }
        }
        assert forall|x: usize| x < k + 1 implies #[trigger] order@.contains(x) by {
            if x == k {
                assert(order@[p as int] == x);
            } else {
                assert(s.subrange(0, k as int).len() == k);
                assert(old_order.contains(x));
                let i0 = choose|i: int| 0 <= i < old_order.len() && old_order[i] == x;
                if i0 < p {
                    assert(order@[i0] == x);
                } else {
                    assert(order@[i0 + 1] == x);
                }
            }
        }
        assert forall|i: int, j: int| 0 <= i < j < order.len() implies order@[i] != order@[j] by {
            if i > p {
                assert(order@[i] == old_order[i - 1]);
            }
            if j > p {
                assert(order@[j] == old_order[j - 1]);
            }
        }
        assert forall|i: int, j: int|
            0 <= i < j < order.len() implies sub[order@[i] as int].commits
            >= sub[order@[j] as int].commits && (sub[order@[i] as int].commits
            == sub[order@[j] as int].commits ==> order@[i] < order@[j]) by {
            if i > p {
                assert(order@[i] == old_order[i - 1]);
            }
            if j > p {
                assert(order@[j] == old_order[j - 1]);
            }
            assert(sub[order@[i] as int] == s[order@[i] as int]);
            assert(sub[order@[j] as int] == s[order@[j] as int]);
            if i < p && j > p {
                assert(s[old_order[i] as int].commits >= s[old_order[j - 1] as int].commits);
            }
            if i > p && j > p {
                assert(s.subrange(0, k as int)[old_order[i - 1] as int] == s[old_order[i - 1] as int]);
                assert(s.subrange(0, k as int)[old_order[j - 1] as int] == s[old_order[j - 1] as int]);
            }
            if i < p && j < p {
                assert(s.subrange(0, k as int)[old_order[i] as int] == s[old_order[i] as int]);
                assert(s.subrange(0, k as int)[old_order[j] as int] == s[old_order[j] as int]);
            }
            if i < p && j > p {
                assert(s.subrange(0, k as int)[old_order[i] as int] == s[old_order[i] as int]);
                assert(s.subrange(0, k as int)[old_order[j - 1] as int] == s[old_order[j - 1] as int]);
            }
        }
        k = k + 1;
    }
    assert(summaries@.subrange(0, n as int) =~= summaries@);
    order
}

/// The character of a decimal digit.
pub open spec fn digit_char(d: nat) -> char {
    if d == 0 {
        '0'
    } else if d == 1 {
        '1'
    } else if d == 2 {
        '2'
    } else if d == 3 {
        '3'
    } else if d == 4 {
        '4'
    } else if d == 5 {
        '5'
    } else if d == 6 {
        '6'
    } else if d == 7 {
        '7'
    } else if d == 8 {
        '8'
    } else {
        '9'
    }
}

/// `n` written in decimal, without leading zeros.
pub open spec fn decimal(n: nat) -> Seq<char>
    decreases n,
{
    if n < 10 {
        seq![digit_char(n)]
    } else {
        decimal(n / 10).push(digit_char(n % 10))
    }
}

/// The report block of one repository.
pub open spec fn block_text(s: RepoSummary) -> Seq<char> {
    "### "@ + s.name@ + "\n\n * Commits "@ + decimal(s.commits as nat) + "\n * Files changed: "@
        + decimal(s.stats.files_changed as nat) + "\n * Insertions: "@ + decimal(
        s.stats.insertions as nat,
    ) + "\n * Deletions: "@ + decimal(s.stats.deletions as nat) + "\n\n"@
}

/// The blocks of `s`, one after another in the order of `s`.
pub open spec fn blocks_text(s: Seq<RepoSummary>) -> Seq<char>
    decreases s.len(),
{
    if s.len() == 0 {
        Seq::empty()
    } else {
        blocks_text(s.drop_last()) + block_text(s.last())
    }
}

/// The summaries of `s` taken in the order of `order`.
pub open spec fn arranged(s: Seq<RepoSummary>, order: Seq<usize>) -> Seq<RepoSummary> {
    order.map_values(|i: usize| s[i as int])
}

/// The report on `s`: the blocks of `s` in the order of a stable ranking.
pub open spec fn is_report_of(s: Seq<RepoSummary>, text: Seq<char>) -> bool {
    exists|order: Seq<usize>| is_stable_ranking(s, order) && text == blocks_text(arranged(s, order))
}

/// A stable ranking is unique: any two orders that rank the same summaries
/// by commit count, most first and ties in input order, are the same.
pub proof fn lemma_stable_ranking_unique(s: Seq<RepoSummary>, o1: Seq<usize>, o2: Seq<usize>)
    requires
        is_stable_ranking(s, o1),
        is_stable_ranking(s, o2),
    ensures
        o1 == o2,
{
    assert forall|i: int| 0 <= i < o1.len() implies o1[i] == o2[i] by {
        lemma_ranking_agrees_at(s, o1, o2, i);
    }
    assert(o1 =~= o2);
}

proof fn lemma_ranking_agrees_at(s: Seq<RepoSummary>, o1: Seq<usize>, o2: Seq<usize>, i: int)
    requires
        is_stable_ranking(s, o1),
        is_stable_ranking(s, o2),
        0 <= i < o1.len(),
    ensures
        o1[i] == o2[i],
    decreases i,
{
    if i > 0 {
        lemma_ranking_agrees_at(s, o1, o2, i - 1);
    }
    let x = o1[i];
    let y = o2[i];
    if x != y {
        assert(o2[i] < s.len());
        assert(o1[i] < s.len());
        assert(o1.contains(y));
        let k = choose|k: int| 0 <= k < o1.len() && o1[k] == y;
        assert(o2.contains(x));
        let m = choose|m: int| 0 <= m < o2.len() && o2[m] == x;
        if k < i {
            lemma_ranking_agrees_at(s, o1, o2, k);
        }
        if m < i {
            lemma_ranking_agrees_at(s, o1, o2, m);
        }
        assert(k > i);
        assert(m > i);
        assert(s[x as int].commits >= s[y as int].commits);
        assert(s[y as int].commits >= s[x as int].commits);
    }
}

/// The one-digit string of `d`.
fn digit_str(d: u64) -> (r: &'static str)
    requires
        d < 10,
    ensures
        r@ == seq![digit_char(d as nat)],
{
    if d == 0 {
        proof { reveal_strlit("0"); }
        "0"
    } else if d == 1 {
        proof { reveal_strlit("1"); }
        "1"
    } else if d == 2 {
        proof { reveal_strlit("2"); }
        "2"
    } else if d == 3 {
        proof { reveal_strlit("3"); }
        "3"
    } else if d == 4 {
        proof { reveal_strlit("4"); }
        "4"
    } else if d == 5 {
        proof { reveal_strlit("5"); }
        "5"
    } else if d == 6 {
        proof { reveal_strlit("6"); }
        "6"
    } else if d == 7 {
        proof { reveal_strlit("7"); }
        "7"
    } else if d == 8 {
        proof { reveal_strlit("8"); }
        "8"
    } else {
        proof { reveal_strlit("9"); }
        "9"
    }
}

/// Appends `n` in decimal to `out`.
fn push_decimal(out: &mut String, n: u64)
    ensures
        final(out)@ == old(out)@ + decimal(n as nat),
    decreases n,
{
    if n >= 10 {
        push_decimal(out, n / 10);
    }
    out.append(digit_str(n % 10));
    proof {
        if n < 10 {
            assert(old(out)@ + decimal(n as nat) =~= old(out)@ + seq![digit_char(n as nat)]);
        } else {
            assert(decimal(n as nat) =~= decimal((n / 10) as nat) + seq![digit_char((n % 10) as nat)]);
        }
    }
}

/// `n` written in decimal.
pub fn decimal_string(n: u64) -> (r: String)
    ensures
        r@ == decimal(n as nat),
{
    let mut out = String::new();
    push_decimal(&mut out, n);
    assert(out@ =~= decimal(n as nat));
    out
}

/// Appends the report block of `s` to `out`.
fn push_block(out: &mut String, s: &RepoSummary)
    ensures
        final(out)@ == old(out)@ + block_text(*s),
{
    proof {
        reveal_strlit("### ");
        reveal_strlit("\n\n * Commits ");
        reveal_strlit("\n * Files changed: ");
        reveal_strlit("\n * Insertions: ");
        reveal_strlit("\n * Deletions: ");
        reveal_strlit("\n\n");
    }
    out.append("### ");
    out.append(s.name.as_str());
    out.append("\n\n * Commits ");
    push_decimal(out, s.commits);
    out.append("\n * Files changed: ");
    push_decimal(out, s.stats.files_changed as u64);
    out.append("\n * Insertions: ");
    push_decimal(out, s.stats.insertions as u64);
    out.append("\n * Deletions: ");
    push_decimal(out, s.stats.deletions as u64);
    out.append("\n\n");
    assert(final(out)@ =~= old(out)@ + block_text(*s));
}

/// The report block of one repository: its name as a heading, then its
/// commit count, files changed, insertions and deletions, and a blank line.
pub fn render_summary(s: &RepoSummary) -> (r: String)
    ensures
        r@ == block_text(*s),
{
    let mut out = String::new();
    push_block(&mut out, s);
    assert(out@ =~= block_text(*s));
    out
}

/// The full report: the summaries ranked by commit count, most first, ties
/// in input order, each rendered as its block.
pub fn rank_and_render(summaries: &Vec<RepoSummary>) -> (r: String)
    ensures
        is_report_of(summaries@, r@),
{
    let order = rank_order(summaries);
    let ghost s = summaries@;
    let mut out = String::new();
    let mut i: usize = 0;
    while i < order.len()
        invariant
            s == summaries@,
            is_stable_ranking(s, order@),
            i <= order.len(),
            out@ == blocks_text(arranged(s, order@.subrange(0, i as int))),
        decreases order.len() - i,
    {
        push_block(&mut out, &summaries[order[i]]);
        let ghost a = arranged(s, order@.subrange(0, i as int + 1));
        assert(a.drop_last() =~= arranged(s, order@.subrange(0, i as int)));
        i = i + 1;
    }
    assert(order@.subrange(0, i as int) =~= order@);
    out
}

/// Whether `x` holds no line break.
pub open spec fn single_line(x: Seq<char>) -> bool {
    forall|i: int| 0 <= i < x.len() ==> #[trigger] x[i] != '\n'
}

proof fn lemma_decimal_shape(n: nat)
    ensures
        decimal(n).len() >= 1,
        single_line(decimal(n)),
        n >= 10 ==> decimal(n).len() >= 2,
    decreases n,
{
    if n >= 10 {
        lemma_decimal_shape(n / 10);
        let d = decimal(n / 10).push(digit_char(n % 10));
        assert forall|i: int| 0 <= i < d.len() implies #[trigger] d[i] != '\n' by {
            if i < d.len() - 1 {
                assert(d[i] == decimal(n / 10)[i]);
            }
        }
    }
}

/// Decimal text determines the number it was written from.
pub proof fn lemma_decimal_injective(n: nat, m: nat)
    requires
        decimal(n) == decimal(m),
    ensures
        n == m,
    decreases n,
{
    lemma_decimal_shape(n);
    lemma_decimal_shape(m);
    if n >= 10 && m >= 10 {
        assert(decimal(n).last() == digit_char(n % 10));
        assert(decimal(m).last() == digit_char(m % 10));
        assert(decimal(n).drop_last() =~= decimal(n / 10));
        assert(decimal(m).drop_last() =~= decimal(m / 10));
        lemma_decimal_injective(n / 10, m / 10);
    } else if n < 10 && m < 10 {
        assert(decimal(n)[0] == digit_char(n));
        assert(decimal(m)[0] == digit_char(m));
    }
}

/// Splitting two equal texts at their first line break gives equal parts.
proof fn lemma_split_at_break(x1: Seq<char>, r1: Seq<char>, x2: Seq<char>, r2: Seq<char>)
    requires
        x1 + r1 == x2 + r2,
        single_line(x1),
        single_line(x2),
        r1.len() > 0 && r1[0] == '\n',
        r2.len() > 0 && r2[0] == '\n',
    ensures
        x1 == x2,
        r1 == r2,
{
    if x1.len() < x2.len() {
        assert((x1 + r1)[x1.len() as int] == r1[0]);
        assert((x2 + r2)[x1.len() as int] == x2[x1.len() as int]);
    } else if x2.len() < x1.len() {
        assert((x2 + r2)[x2.len() as int] == r2[0]);
        assert((x1 + r1)[x2.len() as int] == x1[x2.len() as int]);
    }
    assert(x1 =~= (x1 + r1).subrange(0, x1.len() as int));
    assert(x2 =~= (x2 + r2).subrange(0, x2.len() as int));
    assert(r1 =~= (x1 + r1).subrange(x1.len() as int, (x1 + r1).len() as int));
    assert(r2 =~= (x2 + r2).subrange(x2.len() as int, (x2 + r2).len() as int));
}

proof fn lemma_drop_prefix(p: Seq<char>, x: Seq<char>, y: Seq<char>)
    requires
        p + x == p + y,
    ensures
        x == y,
{
    assert(x =~= (p + x).subrange(p.len() as int, (p + x).len() as int));
    assert(y =~= (p + y).subrange(p.len() as int, (p + y).len() as int));
}

proof fn lemma_assoc(x: Seq<char>, y: Seq<char>, z: Seq<char>)
    ensures
        (x + y) + z == x + (y + z),
{
    assert((x + y) + z =~= x + (y + z));
}

/// The text of a block after its name.
spec fn block_tail(s: RepoSummary) -> Seq<char> {
    "\n\n * Commits "@ + (decimal(s.commits as nat) + ("\n * Files changed: "@ + (decimal(
        s.stats.files_changed as nat,
    ) + ("\n * Insertions: "@ + (decimal(s.stats.insertions as nat) + ("\n * Deletions: "@ + (
    decimal(s.stats.deletions as nat) + "\n\n"@)))))))
}

proof fn lemma_block_regroup(s: RepoSummary)
    ensures
        block_text(s) == "### "@ + (s.name@ + block_tail(s)),
{
    let h = "### "@;
    let n = s.name@;
    let l1 = "\n\n * Commits "@;
    let l2 = "\n * Files changed: "@;
    let l3 = "\n * Insertions: "@;
    let l4 = "\n * Deletions: "@;
    let l5 = "\n\n"@;
    let c = decimal(s.commits as nat);
    let f = decimal(s.stats.files_changed as nat);
    let i = decimal(s.stats.insertions as nat);
    let d = decimal(s.stats.deletions as nat);
    let t9 = d + l5;
    let t8 = l4 + t9;
    let t7 = i + t8;
    let t6 = l3 + t7;
    let t5 = f + t6;
    let t4 = l2 + t5;
    let t3 = c + t4;
    let t2 = l1 + t3;
    let t1 = n + t2;
    lemma_assoc(h + n + l1 + c + l2 + f + l3 + i + l4, d, l5);
    lemma_assoc(h + n + l1 + c + l2 + f + l3 + i, l4, t9);
    lemma_assoc(h + n + l1 + c + l2 + f + l3, i, t8);
    lemma_assoc(h + n + l1 + c + l2 + f, l3, t7);
    lemma_assoc(h + n + l1 + c + l2, f, t6);
    lemma_assoc(h + n + l1 + c, l2, t5);
    lemma_assoc(h + n + l1, c, t4);
    lemma_assoc(h + n, l1, t3);
    lemma_assoc(h, n, t2);
}

/// A rendered block can be read back: when two summaries whose names are
/// single lines render to the same block, they have the same name, commit
/// count, files changed, insertions and deletions.
pub proof fn lemma_block_round_trip(a: RepoSummary, b: RepoSummary)
    requires
        single_line(a.name@),
        single_line(b.name@),
        block_text(a) == block_text(b),
    ensures
        a.name@ == b.name@,
        a.commits == b.commits,
        a.stats == b.stats,
{
    reveal_strlit("### ");
    reveal_strlit("\n\n * Commits ");
    reveal_strlit("\n * Files changed: ");
    reveal_strlit("\n * Insertions: ");
    reveal_strlit("\n * Deletions: ");
    reveal_strlit("\n\n");
    let h = "### "@;
    let l1 = "\n\n * Commits "@;
    let l2 = "\n * Files changed: "@;
    let l3 = "\n * Insertions: "@;
    let l4 = "\n * Deletions: "@;
    let l5 = "\n\n"@;
    let (ac, af, ai, ad) = (
        decimal(a.commits as nat),
        decimal(a.stats.files_changed as nat),
        decimal(a.stats.insertions as nat),
        decimal(a.stats.deletions as nat),
    );
    let (bc, bf, bi, bd) = (
        decimal(b.commits as nat),
        decimal(b.stats.files_changed as nat),
        decimal(b.stats.insertions as nat),
        decimal(b.stats.deletions as nat),
    );
    lemma_decimal_shape(a.commits as nat);
    lemma_decimal_shape(a.stats.files_changed as nat);
    lemma_decimal_shape(a.stats.insertions as nat);
    lemma_decimal_shape(a.stats.deletions as nat);
    lemma_decimal_shape(b.commits as nat);
    lemma_decimal_shape(b.stats.files_changed as nat);
    lemma_decimal_shape(b.stats.insertions as nat);
    lemma_decimal_shape(b.stats.deletions as nat);
    let a4 = l4 + (ad + l5);
    let a3 = l3 + (ai + a4);
    let a2 = l2 + (af + a3);
    let a1 = l1 + (ac + a2);
    let b4 = l4 + (bd + l5);
    let b3 = l3 + (bi + b4);
    let b2 = l2 + (bf + b3);
    let b1 = l1 + (bc + b2);
    lemma_block_regroup(a);
    lemma_block_regroup(b);
    assert(block_tail(a) == a1);
    assert(block_tail(b) == b1);
    lemma_drop_prefix(h, a.name@ + a1, b.name@ + b1);
    lemma_split_at_break(a.name@, a1, b.name@, b1);
    lemma_drop_prefix(l1, ac + a2, bc + b2);
    lemma_split_at_break(ac, a2, bc, b2);
    lemma_decimal_injective(a.commits as nat, b.commits as nat);
    lemma_drop_prefix(l2, af + a3, bf + b3);
    lemma_split_at_break(af, a3, bf, b3);
    lemma_decimal_injective(a.stats.files_changed as nat, b.stats.files_changed as nat);
    lemma_drop_prefix(l3, ai + a4, bi + b4);
    lemma_split_at_break(ai, a4, bi, b4);
    lemma_decimal_injective(a.stats.insertions as nat, b.stats.insertions as nat);
    lemma_drop_prefix(l4, ad + l5, bd + l5);
    lemma_split_at_break(ad, l5, bd, l5);
    lemma_decimal_injective(a.stats.deletions as nat, b.stats.deletions as nat);
}

} // verus!
