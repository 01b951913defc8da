//! The GENLIB document and the tally of skipped cells.
use vstd::prelude::*;
use vstd::string::StringExecFns;
use crate::genlib::SkipReason;
use crate::table::texts;

verus! {

// ---------------------------------------------------------------------------
// The document
// ---------------------------------------------------------------------------

/// A gate that ties its output to 0, for libraries without one.
pub open spec fn const0_line() -> Seq<char> {
    "GATE _const0_             0.0000 Z=CONST0;\n"@
}

/// A gate that ties its output to 1, for libraries without one.
pub open spec fn const1_line() -> Seq<char> {
    "GATE _const1_             0.0000 Z=CONST1;\n"@
}

/// Each gate followed by an empty line.
pub open spec fn gate_lines(gates: Seq<Seq<char>>) -> Seq<Seq<char>>
    decreases gates.len(),
{
    if gates.len() == 0 {
        Seq::empty()
    } else {
        gate_lines(gates.drop_last()).push(gates.last()).push(Seq::empty())
    }
}

/// The lines of the GENLIB document: the two header lines and an empty
/// line, the constant-1 gate when no converted gate drives a 1, the
/// constant-0 gate when none drives a 0, then each gate followed by an empty
/// line.
pub open spec fn document_lines(
    title: Seq<char>,
    settings: Seq<char>,
    gates: Seq<Seq<char>>,
    has_const0: bool,
    has_const1: bool,
) -> Seq<Seq<char>> {
    let head = seq![title, settings, Seq::<char>::empty()];
    let c1 = if has_const1 {
        Seq::<Seq<char>>::empty()
    } else {
        seq![const1_line()]
    };
    let c0 = if has_const0 {
        Seq::<Seq<char>>::empty()
    } else {
        seq![const0_line()]
    };
    head + c1 + c0 + gate_lines(gates)
}

/// The lines of the GENLIB document (see [`document_lines`]); the caller
/// joins them with newlines.
pub fn genlib_lines(
    title: String,
    settings: String,
    gates: Vec<String>,
    has_const0: bool,
    has_const1: bool,
) -> (r: Vec<String>)
    ensures
        texts(r@) == document_lines(title@, settings@, texts(gates@), has_const0, has_const1),
{
    let mut lines: Vec<String> = Vec::new();
    lines.push(title);
    lines.push(settings);
    lines.push(String::new());
    if !has_const1 {
        lines.push(String::from_str("GATE _const1_             0.0000 Z=CONST1;\n"));
    }
    if !has_const0 {
        lines.push(String::from_str("GATE _const0_             0.0000 Z=CONST0;\n"));
    }
    let ghost head = texts(lines@);
    let mut k: usize = 0;
    assert(texts(gates@).take(0) =~= Seq::<Seq<char>>::empty());
    assert(head + gate_lines(Seq::<Seq<char>>::empty()) =~= head);
    while k < gates.len()
        invariant
            k <= gates@.len(),
            texts(lines@) == head + gate_lines(texts(gates@).take(k as int)),
        decreases gates@.len() - k,
    {
        let ghost before = texts(lines@);
        assert(texts(gates@).take(k + 1).drop_last() =~= texts(gates@).take(k as int));
        lines.push(gates[k].clone());
        lines.push(String::new());
        assert(texts(lines@) =~= before.push(gates@[k as int]@).push(Seq::empty()));
        k = k + 1;
    }
    assert(texts(gates@).take(gates@.len() as int) =~= texts(gates@));
    lines
}

// ---------------------------------------------------------------------------
// Skipped cells
// ---------------------------------------------------------------------------

/// How many cells were skipped for one reason, and the names of the first
/// five of them.
#[derive(Clone, Debug)]
pub struct SkipSummary {
    pub reason: SkipReason,
    pub count: usize,
    pub examples: Vec<String>,
}

/// The reasons that occur in `rs`, each once, in the order of their first
/// occurrence.
pub open spec fn reasons_seen(rs: Seq<SkipReason>) -> Seq<SkipReason>
    decreases rs.len(),
{
    if rs.len() == 0 {
        Seq::empty()
    } else {
        let r = reasons_seen(rs.drop_last());
        if r.contains(rs.last()) {
            r
        } else {
            r.push(rs.last())
        }
    }
}

/// How often `r` occurs in `rs`.
pub open spec fn count_of(rs: Seq<SkipReason>, r: SkipReason) -> nat
    decreases rs.len(),
{
    if rs.len() == 0 {
        0
    } else {
        count_of(rs.drop_last(), r) + if rs.last() == r {
            1nat
        } else {
            0nat
        }
    }
}

/// The names of the first five cells skipped for `r`.
pub open spec fn examples_of(rs: Seq<SkipReason>, names: Seq<Seq<char>>, r: SkipReason) -> Seq<
    Seq<char>,
>
    decreases rs.len(),
{
    if rs.len() == 0 || names.len() != rs.len() {
        Seq::empty()
    } else {
        let e = examples_of(rs.drop_last(), names.drop_last(), r);
        if rs.last() == r && e.len() < 5 {
            e.push(names.last())
        } else {
            e
        }
    }
}

/// One entry of the tally: a reason, its count and its examples.
pub open spec fn tally_entry(rs: Seq<SkipReason>, names: Seq<Seq<char>>, r: SkipReason) -> (
    SkipReason,
    nat,
    Seq<Seq<char>>,
) {
    (r, count_of(rs, r), examples_of(rs, names, r))
}

impl View for SkipSummary {
    type V = (SkipReason, nat, Seq<Seq<char>>);

    open spec fn view(&self) -> (SkipReason, nat, Seq<Seq<char>>) {
        (self.reason, self.count as nat, texts(self.examples@))
    }
}

pub open spec fn summaries_view(v: Seq<SkipSummary>) -> Seq<(SkipReason, nat, Seq<Seq<char>>)> {
    v.map_values(|s: SkipSummary| s@)
}

fn distinct_reasons(rs: &Vec<SkipReason>) -> (r: Vec<SkipReason>)
    ensures
        r@ == reasons_seen(rs@),
{
    let mut r: Vec<SkipReason> = Vec::new();
    let mut k: usize = 0;
    assert(rs@.take(0) =~= Seq::<SkipReason>::empty());
    while k < rs.len()
        invariant
            k <= rs@.len(),
            r@ == reasons_seen(rs@.take(k as int)),
        decreases rs@.len() - k,
    {
        assert(rs@.take(k + 1).drop_last() =~= rs@.take(k as int));
        assert(rs@.take(k + 1).last() == rs@[k as int]);
        let x = rs[k];
        let mut j: usize = 0;
        let mut found = false;
        while j < r.len()
            invariant
                j <= r@.len(),
                found == exists|i: int| 0 <= i < j && r@[i] == x,
            decreases r@.len() - j,
        {
            if r[j] == x {
                found = true;
            }
            j = j + 1;
        }
        if !found {
            r.push(x);
        }
        k = k + 1;
    }
    assert(rs@.take(rs@.len() as int) =~= rs@);
    r
}

fn count_and_examples(rs: &Vec<SkipReason>, names: &Vec<String>, reason: SkipReason) -> (r: (
    usize,
    Vec<String>,
))
    requires
        rs@.len() == names@.len(),
    ensures
        r.0 == count_of(rs@, reason),
        texts(r.1@) == examples_of(rs@, texts(names@), reason),
{
    let ghost all = texts(names@);
    let mut count: usize = 0;
    let mut examples: Vec<String> = Vec::new();
    let mut k: usize = 0;
    assert(rs@.take(0) =~= Seq::<SkipReason>::empty());
    while k < rs.len()
        invariant
            k <= rs@.len(),
            rs@.len() == names@.len(),
            all == texts(names@),
            count <= k,
            count == count_of(rs@.take(k as int), reason),
            texts(examples@) == examples_of(rs@.take(k as int), all.take(k as int), reason),
        decreases rs@.len() - k,
    {
        assert(rs@.take(k + 1).drop_last() =~= rs@.take(k as int));
        assert(all.take(k + 1).drop_last() =~= all.take(k as int));
        assert(rs@.take(k + 1).last() == rs@[k as int]);
        assert(all.take(k + 1).last() == names@[k as int]@);
        if rs[k] == reason {
            count = count + 1;
            if examples.len() < 5 {
                let ghost before = texts(examples@);
                examples.push(names[k].clone());
                assert(texts(examples@) =~= before.push(names@[k as int]@));
            }
        }
        k = k + 1;
    }
    assert(rs@.take(rs@.len() as int) =~= rs@);
    assert(all.take(all.len() as int) =~= all);
    (count, examples)
}

/// Tallies the skipped cells (reason `reasons[k]` for the cell named
/// `names[k]`): one entry per reason, in the order in which the reasons
/// first occur, with its count and the names of its first five cells.
pub fn tally_skips(reasons: &Vec<SkipReason>, names: &Vec<String>) -> (r: Vec<SkipSummary>)
    requires
        reasons@.len() == names@.len(),
    ensures
        summaries_view(r@) == reasons_seen(reasons@).map_values(
            |x: SkipReason| tally_entry(reasons@, texts(names@), x),
        ),
{
    let seen = distinct_reasons(reasons);
    let mut out: Vec<SkipSummary> = Vec::new();
    let mut k: usize = 0;
    while k < seen.len()
        invariant
            k <= seen@.len(),
            seen@ == reasons_seen(reasons@),
            reasons@.len() == names@.len(),
            summaries_view(out@) == seen@.take(k as int).map_values(
                |x: SkipReason| tally_entry(reasons@, texts(names@), x),
            ),
        decreases seen@.len() - k,
    {
        let reason = seen[k];
        let (count, examples) = count_and_examples(reasons, names, reason);
        let ghost before = summaries_view(out@);
        let entry = SkipSummary { reason, count, examples };
        assert(entry@ == tally_entry(reasons@, texts(names@), reason));
        out.push(entry);
        assert(summaries_view(out@) =~= before.push(tally_entry(reasons@, texts(names@), reason)));
        assert(seen@.take(k + 1) =~= seen@.take(k as int).push(reason));
        assert(summaries_view(out@) =~= seen@.take(k + 1).map_values(
            |x: SkipReason| tally_entry(reasons@, texts(names@), x),
        ));
        k = k + 1;
    }
    assert(seen@.take(seen@.len() as int) =~= seen@);
    out
}

// ---------------------------------------------------------------------------
// Laws
// ---------------------------------------------------------------------------

/// The total of the counts of the reasons in `seen`.
pub open spec fn counted(rs: Seq<SkipReason>, seen: Seq<SkipReason>) -> nat
    decreases seen.len(),
{
    if seen.len() == 0 {
        0
    } else {
        counted(rs, seen.drop_last()) + count_of(rs, seen.last())
    }
}

/// How often `x` occurs in `t`.
pub open spec fn occurrences(t: Seq<SkipReason>, x: SkipReason) -> nat
    decreases t.len(),
{
    if t.len() == 0 {
        0
    } else {
        occurrences(t.drop_last(), x) + if t.last() == x {
            1nat
        } else {
            0nat
        }
    }
}

proof fn lemma_seen(rs: Seq<SkipReason>)
    ensures
        forall|i: int, j: int|
            0 <= i < j < reasons_seen(rs).len() ==> reasons_seen(rs)[i] != reasons_seen(rs)[j],
        forall|r: SkipReason| reasons_seen(rs).contains(r) <==> rs.contains(r),
    decreases rs.len(),
{
    if rs.len() > 0 {
        let p = rs.drop_last();
        let x = rs.last();
        lemma_seen(p);
        let sp = reasons_seen(p);
        assert forall|r: SkipReason| reasons_seen(rs).contains(r) <==> rs.contains(r) by {
            if rs.contains(r) {
                let k = choose|k: int| 0 <= k < rs.len() && rs[k] == r;
                if k < rs.len() - 1 {
                    assert(p[k] == r);
                    assert(p.contains(r));
                    let j = choose|j: int| 0 <= j < sp.len() && sp[j] == r;
                    assert(reasons_seen(rs)[j] == r);
                } else if sp.contains(r) {
                    let j = choose|j: int| 0 <= j < sp.len() && sp[j] == r;
                    assert(reasons_seen(rs)[j] == r);
                } else {
                    assert(reasons_seen(rs)[sp.len() as int] == r);
                }
            }
            if reasons_seen(rs).contains(r) {
                let j = choose|j: int|
                    0 <= j < reasons_seen(rs).len() && reasons_seen(rs)[j] == r;
                if j < sp.len() {
                    assert(sp[j] == r);
                    assert(p.contains(r));
                    let k = choose|k: int| 0 <= k < p.len() && p[k] == r;
                    assert(rs[k] == r);
                } else {
                    assert(rs[rs.len() - 1] == r);
                }
            }
        }
    }
}

proof fn lemma_count_absent(rs: Seq<SkipReason>, x: SkipReason)
    requires
        !rs.contains(x),
    ensures
        count_of(rs, x) == 0,
    decreases rs.len(),
{
    if rs.len() > 0 {
        assert(!rs.drop_last().contains(x)) by {
            if rs.drop_last().contains(x) {
                let k = choose|k: int| 0 <= k < rs.drop_last().len() && rs.drop_last()[k] == x;
                assert(rs[k] == x);
            }
        }
        assert(rs[rs.len() - 1] != x);
        lemma_count_absent(rs.drop_last(), x);
    }
}

proof fn lemma_counted_step(rs: Seq<SkipReason>, t: Seq<SkipReason>)
    requires
        rs.len() > 0,
    ensures
        counted(rs, t) == counted(rs.drop_last(), t) + occurrences(t, rs.last()),
    decreases t.len(),
{
    if t.len() > 0 {
        lemma_counted_step(rs, t.drop_last());
    }
}

proof fn lemma_occurrences(t: Seq<SkipReason>, x: SkipReason)
    requires
        forall|i: int, j: int| 0 <= i < j < t.len() ==> t[i] != t[j],
    ensures
        t.contains(x) ==> occurrences(t, x) == 1,
        !t.contains(x) ==> occurrences(t, x) == 0,
    decreases t.len(),
{
    if t.len() > 0 {
        let p = t.drop_last();
        assert forall|i: int, j: int| 0 <= i < j < p.len() implies p[i] != p[j] by {
            assert(p[i] == t[i] && p[j] == t[j]);
        }
        lemma_occurrences(p, x);
        if t.last() == x {
            assert(!p.contains(x)) by {
                if p.contains(x) {
                    let k = choose|k: int| 0 <= k < p.len() && p[k] == x;
                    assert(t[k] == t[t.len() - 1]);
                }
            }
            assert(t[t.len() - 1] == x);
        } else {
            if t.contains(x) {
                let k = choose|k: int| 0 <= k < t.len() && t[k] == x;
                assert(k < t.len() - 1);
                assert(p[k] == x);
            }
            if p.contains(x) {
                let k = choose|k: int| 0 <= k < p.len() && p[k] == x;
                assert(t[k] == x);
            }
        }
    }
}

/// Every skipped cell is counted once: the counts of the tally add up to
/// the number of skipped cells.
pub proof fn tally_counts_every_skip(rs: Seq<SkipReason>)
    ensures
        counted(rs, reasons_seen(rs)) == rs.len(),
    decreases rs.len(),
{
    if rs.len() > 0 {
        let p = rs.drop_last();
        let x = rs.last();
        tally_counts_every_skip(p);
        lemma_seen(p);
        let sp = reasons_seen(p);
        lemma_counted_step(rs, sp);
        lemma_occurrences(sp, x);
        if sp.contains(x) {
            assert(reasons_seen(rs) == sp);
        } else {
            assert(reasons_seen(rs) == sp.push(x));
            assert(reasons_seen(rs).drop_last() =~= sp);
            assert(!p.contains(x));
            lemma_count_absent(p, x);
        }
    }
}

proof fn lemma_gate_lines(gates: Seq<Seq<char>>, x: Seq<char>)
    requires
        x.len() > 0,
        forall|k: int| 0 <= k < gates.len() ==> gates[k] != x,
    ensures
        !gate_lines(gates).contains(x),
    decreases gates.len(),
{
    if gates.len() > 0 {
        let p = gates.drop_last();
        assert forall|k: int| 0 <= k < p.len() implies p[k] != x by {
            assert(p[k] == gates[k]);
        }
        lemma_gate_lines(p, x);
        let r = gate_lines(p);
        let g = gate_lines(gates);
        assert(g == r.push(gates.last()).push(Seq::empty()));
        assert(gates[gates.len() - 1] != x);
        if g.contains(x) {
            let k = choose|k: int| 0 <= k < g.len() && g[k] == x;
            if k < r.len() {
                assert(r[k] == x);
            }
        }
    }
}

/// The document adds exactly the constant gates that the converted gates
/// lack: it holds the constant-1 gate line exactly when no converted gate
/// drives a 1, and the constant-0 gate line exactly when none drives a 0
/// (for header lines and gates that are not themselves such lines).
pub proof fn document_adds_missing_constants(
    title: Seq<char>,
    settings: Seq<char>,
    gates: Seq<Seq<char>>,
    has_const0: bool,
    has_const1: bool,
)
    requires
        title != const0_line() && title != const1_line(),
        settings != const0_line() && settings != const1_line(),
        forall|k: int|
            0 <= k < gates.len() ==> gates[k] != const0_line() && gates[k] != const1_line(),
    ensures
        document_lines(title, settings, gates, has_const0, has_const1).contains(const1_line())
            <==> !has_const1,
        document_lines(title, settings, gates, has_const0, has_const1).contains(const0_line())
            <==> !has_const0,
{
    reveal_strlit("GATE _const0_             0.0000 Z=CONST0;\n");
    reveal_strlit("GATE _const1_             0.0000 Z=CONST1;\n");
    let c0 = const0_line();
    let c1 = const1_line();
    assert(c0.len() > 0 && c1.len() > 0);
    assert(c0[11] != c1[11]);
    assert(c0 != c1);
    let head = seq![title, settings, Seq::<char>::empty()];
    let lc1 = if has_const1 {
        Seq::<Seq<char>>::empty()
    } else {
        seq![c1]
    };
    let lc0 = if has_const0 {
        Seq::<Seq<char>>::empty()
    } else {
        seq![c0]
    };
    let gl = gate_lines(gates);
    lemma_gate_lines(gates, c0);
    lemma_gate_lines(gates, c1);
    let d = document_lines(title, settings, gates, has_const0, has_const1);
    assert(d == head + lc1 + lc0 + gl);
    let hl: int = (head.len() + lc1.len()) as int;
    let h2: int = hl + lc0.len() as int;
    assert forall|x: Seq<char>| x == c0 || x == c1 implies (d.contains(x) <==> (lc1.contains(x)
        || lc0.contains(x))) by {
        if d.contains(x) {
            let k = choose|k: int| 0 <= k < d.len() && d[k] == x;
            if k < 3 {
                assert(d[k] == head[k]);
            } else if k < hl {
                assert(lc1[k - 3] == x);
            } else if k < h2 {
                assert(lc0[k - hl] == x);
            } else {
                assert(gl[k - h2] == x);
            }
        }
        if lc1.contains(x) {
            assert(d[3] == x);
        }
        if lc0.contains(x) {
            assert(d[hl] == x);
        }
    }
    if !has_const1 {
        assert(lc1[0] == c1);
    }
    if !has_const0 {
        assert(lc0[0] == c0);
    }
}

} // verus!
