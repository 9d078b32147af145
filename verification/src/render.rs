//! Rendering a list of matched nodes as an indented tree: box-drawing
//! connectors, a pid label before each command line, command lines
//! wrapped to the remaining column budget, and continuation rows aligned
//! under the command-line text.

use vstd::prelude::*;

use crate::tree::Process;
use crate::wrap::wrap_cmdline;
use crate::wrap::wrap_spec;

verus! {

/// Number of decimal digits of `n` beyond the first, i.e. one less than
/// the length of its decimal representation.
pub open spec fn spec_extra_digits(n: nat) -> nat
    decreases n,
{
    if n < 10 {
        0
    } else {
        spec_extra_digits(n / 10) + 1
    }
}

proof fn lemma_extra_digits_bound(n: nat)
    ensures
        spec_extra_digits(n) <= n / 10,
    decreases n,
{
    if n >= 10 {
        lemma_extra_digits_bound(n / 10);
    }
}

/// One less than the number of decimal digits of `pid`: the amount of
/// extra label width a pid claims past a single-digit one.
pub fn extra_digits(pid: u32) -> (r: usize)
    ensures
        r == spec_extra_digits(pid as nat),
{
    proof {
        lemma_extra_digits_bound(pid as nat);
    }
    let mut n: u32 = pid;
    let mut count: usize = 0;
    while n >= 10
        invariant
            spec_extra_digits(pid as nat) == spec_extra_digits(n as nat) + count,
            spec_extra_digits(pid as nat) <= pid / 10,
        decreases n,
    {
        n = n / 10;
        count = count + 1;
    }
    count
}

/// The decimal digit for a value below ten.
pub open spec fn digit_char(d: nat) -> char {
    if d == 0 {
        '0'
    } else if d == 1 {
        '1'
    } else if d == 2 {
        '2'
    } else if d == 3 {
        '3'
    } else if d == 4 {
        '4'
    } else if d == 5 {
        '5'
    } else if d == 6 {
        '6'
    } else if d == 7 {
        '7'
    } else if d == 8 {
        '8'
    } else {
        '9'
    }
}

/// The decimal representation of `n`, most significant digit first.
pub open spec fn dec_rep(n: nat) -> Seq<char>
    decreases n,
{
    if n < 10 {
        seq![digit_char(n)]
    } else {
        dec_rep(n / 10).push(digit_char(n % 10))
    }
}

fn digit_str(d: u32) -> (r: &'static str)
    requires
        d < 10,
    ensures
        r@ == seq![digit_char(d as nat)],
{
    let r = match d {
        0 => "0",
        1 => "1",
        2 => "2",
        3 => "3",
        4 => "4",
        5 => "5",
        6 => "6",
        7 => "7",
        8 => "8",
        _ => "9",
    };
    proof {
        reveal_strlit("0");
        reveal_strlit("1");
        reveal_strlit("2");
        reveal_strlit("3");
        reveal_strlit("4");
        reveal_strlit("5");
        reveal_strlit("6");
        reveal_strlit("7");
        reveal_strlit("8");
        reveal_strlit("9");
        assert(r@ =~= seq![digit_char(d as nat)]);
    }
    r
}

/// The decimal label of a pid.
pub fn u32_string(n: u32) -> (s: String)
    ensures
        s@ == dec_rep(n as nat),
    decreases n,
{
    if n < 10 {
        let s = digit_str(n).to_owned();
        s
    } else {
        let mut s = u32_string(n / 10);
        s.append(digit_str(n % 10));
        proof {
            assert(s@ =~= dec_rep(n as nat));
        }
        s
    }
}

/// A run of `d` spaces.
pub open spec fn spaces(d: int) -> Seq<char> {
    Seq::new(if d >= 0 { d as nat } else { 0 }, |i: int| ' ')
}

fn space_string(d: usize) -> (s: String)
    ensures
        s@ == spaces(d as int),
{
    let mut s = String::new();
    let mut i: usize = 0;
    while i < d
        invariant
            i <= d,
            s@ == spaces(i as int),
        decreases d - i,
    {
        s.append(" ");
        proof {
            reveal_strlit(" ");
            assert(s@ =~= spaces(i + 1));
        }
        i = i + 1;
    }
    s
}

/// `a - b`, floored at zero.
pub open spec fn sub_floor(a: int, b: int) -> int {
    if a >= b {
        a - b
    } else {
        0
    }
}

/// The height of the tree rooted at `n`: one more than its tallest
/// subtree.
pub open spec fn tree_height(n: Process) -> nat
    decreases n, 0int,
{
    1 + seq_forest_height(n.children@, 0)
}

/// The tallest tree among `s` from position `i` on.
pub open spec fn seq_forest_height(s: Seq<Process>, i: int) -> nat
    decreases s, s.len() - i,
{
    if 0 <= i < s.len() {
        let h = tree_height(s[i]);
        let rest = seq_forest_height(s, i + 1);
        if h >= rest {
            h
        } else {
            rest
        }
    } else {
        0
    }
}

/// The tallest tree among the referenced nodes from position `i` on.
pub open spec fn refs_height(s: Seq<&Process>, i: int) -> nat
    decreases s.len() - i,
{
    if 0 <= i < s.len() {
        let h = tree_height(*s[i]);
        let rest = refs_height(s, i + 1);
        if h >= rest {
            h
        } else {
            rest
        }
    } else {
        0
    }
}

proof fn lemma_refs_height_bound(s: Seq<&Process>, i: int, j: int)
    requires
        0 <= i <= j < s.len(),
    ensures
        tree_height(*s[j]) <= refs_height(s, i),
    decreases j - i,
{
    if i < j {
        lemma_refs_height_bound(s, i + 1, j);
    }
}

proof fn lemma_refs_height_eq(s: Seq<&Process>, v: Seq<Process>, i: int)
    requires
        s.len() == v.len(),
        forall|j: int| 0 <= j < s.len() ==> *(#[trigger] s[j]) == v[j],
    ensures
        refs_height(s, i) == seq_forest_height(v, i),
    decreases s.len() - i,
{
    if 0 <= i < s.len() {
        lemma_refs_height_eq(s, v, i + 1);
    }
}

/// The output rows for the node `n`: a first row with the connector, the
/// pid label and the first wrapped piece of the command line; one aligned
/// continuation row per further wrapped piece, claiming a bar column only
/// when the node has children of its own; then the rows of its subtrees,
/// indented one level further.
pub open spec fn spec_render_child(
    n: Process,
    width: int,
    indent: Seq<char>,
    turn: Seq<char>,
    indent_bar: Seq<char>,
) -> Seq<Seq<char>>
    decreases n, 0int,
{
    let d = spec_extra_digits(n.pid as nat) as int;
    let lines = wrap_spec(n.cmdline@, sub_floor(width, d + 1));
    let first = if lines.len() == 0 {
        Seq::<Seq<char>>::empty()
    } else {
        seq![indent + turn + seq![' '] + dec_rep(n.pid as nat) + seq![' '] + lines[0]]
    };
    let bar_ch = if n.children@.len() > 0 {
        seq!['│']
    } else {
        seq![' ']
    };
    let wrap_indent = seq![' ', ' ', ' '] + bar_ch + spaces(d);
    let conts = if lines.len() == 0 {
        Seq::<Seq<char>>::empty()
    } else {
        lines.drop_first().map_values(|l: Seq<char>| indent + wrap_indent + seq![' ', ' '] + l)
    };
    first + conts + spec_render_forest(n.children@, sub_floor(width, 3), indent + indent_bar + seq![' ', ' '], 0)
}

/// The output rows for the trees of `s` from position `j` on: every tree
/// but the last under a branch connector that continues a vertical bar,
/// the last under a corner connector that leaves blank padding.
pub open spec fn spec_render_forest(
    s: Seq<Process>,
    width: int,
    indent: Seq<char>,
    j: int,
) -> Seq<Seq<char>>
    decreases s, s.len() - j,
{
    if 0 <= j < s.len() {
        let last = j == s.len() - 1;
        let turn = if last {
            seq!['└', '─']
        } else {
            seq!['├', '─']
        };
        let bar = if last {
            seq![' ']
        } else {
            seq!['│']
        };
        spec_render_child(s[j], width, indent, turn, bar) + spec_render_forest(s, width, indent, j + 1)
    } else {
        Seq::<Seq<char>>::empty()
    }
}

/// The output rows for a list of matched root references.
pub open spec fn spec_render_refs(
    s: Seq<&Process>,
    width: int,
    indent: Seq<char>,
    j: int,
) -> Seq<Seq<char>>
    decreases s.len() - j,
{
    if 0 <= j < s.len() {
        let last = j == s.len() - 1;
        let turn = if last {
            seq!['└', '─']
        } else {
            seq!['├', '─']
        };
        let bar = if last {
            seq![' ']
        } else {
            seq!['│']
        };
        spec_render_child(*s[j], width, indent, turn, bar) + spec_render_refs(s, width, indent, j + 1)
    } else {
        Seq::<Seq<char>>::empty()
    }
}

proof fn lemma_render_refs_eq(s: Seq<&Process>, v: Seq<Process>, width: int, indent: Seq<char>, j: int)
    requires
        s.len() == v.len(),
        forall|m: int| 0 <= m < s.len() ==> *(#[trigger] s[m]) == v[m],
    ensures
        spec_render_refs(s, width, indent, j) == spec_render_forest(v, width, indent, j),
    decreases s.len() - j,
{
    if 0 <= j < s.len() {
        lemma_render_refs_eq(s, v, width, indent, j + 1);
    }
}

/// Emits the rows for one matched node: connector, pid label and wrapped
/// command line, then its subtrees. The column budget never underflows: a
/// budget too narrow for the label wraps at zero, which packs one token
/// per line.
pub fn print_child(
    child: &Process,
    width: usize,
    indent: &str,
    turn: &str,
    indent_bar: &str,
    out: &mut Vec<String>,
)
    ensures
        final(out).deep_view() == old(out).deep_view() + spec_render_child(
            *child,
            width as int,
            indent@,
            turn@,
            indent_bar@,
        ),
    decreases tree_height(*child), 0int,
{
    let ghost base = out.deep_view();
    let digits = extra_digits(child.pid);
    let ww = if width > digits {
        width - digits - 1
    } else {
        0
    };
    proof {
        assert(ww as int == sub_floor(width as int, digits as int + 1));
    }
    let split_cmd = wrap_cmdline(child.cmdline.as_str(), ww);
    let ghost lines = wrap_spec(child.cmdline@, sub_floor(width as int, digits as int + 1));
    let has_children = child.children.len() > 0;
    let ghost bar_ch: Seq<char> = if has_children {
        seq!['│']
    } else {
        seq![' ']
    };
    let ghost wi: Seq<char> = seq![' ', ' ', ' '] + bar_ch + spaces(digits as int);
    let ghost first: Seq<Seq<char>> = if lines.len() == 0 {
        Seq::<Seq<char>>::empty()
    } else {
        seq![indent@ + turn@ + seq![' '] + dec_rep(child.pid as nat) + seq![' '] + lines[0]]
    };
    let ghost conts: Seq<Seq<char>> = if lines.len() == 0 {
        Seq::<Seq<char>>::empty()
    } else {
        lines.drop_first().map_values(|l: Seq<char>| indent@ + wi + seq![' ', ' '] + l)
    };
    if split_cmd.len() > 0 {
        let pid_str = u32_string(child.pid);
        let mut line = String::new();
        line.append(indent);
        line.append(turn);
        line.append(" ");
        line.append(pid_str.as_str());
        line.append(" ");
        line.append(split_cmd[0].as_str());
        proof {
            reveal_strlit(" ");
            assert(" "@ =~= seq![' ']);
            assert(split_cmd@[0]@ == split_cmd.deep_view()[0]);
            assert(line@ =~= first[0]);
        }
        out.push(line);
        proof {
            assert(out.deep_view() =~= base + first);
        }
        let mut wrap_indent = String::new();
        wrap_indent.append("   ");
        if has_children {
            wrap_indent.append("│");
        } else {
            wrap_indent.append(" ");
        }
        let sp = space_string(digits);
        wrap_indent.append(sp.as_str());
        proof {
            reveal_strlit("   ");
            reveal_strlit("│");
            reveal_strlit(" ");
            assert("   "@ =~= seq![' ', ' ', ' ']);
            assert("│"@ =~= seq!['│']);
            assert(" "@ =~= seq![' ']);
            assert(wrap_indent@ =~= wi);
            assert(lines.subrange(1, 1) =~= Seq::<Seq<char>>::empty());
            assert(out.deep_view() =~= base + first + lines.subrange(1, 1).map_values(
                |l: Seq<char>| indent@ + wi + seq![' ', ' '] + l,
            ));
        }
        let mut ti: usize = 1;
        while ti < split_cmd.len()
            invariant
                1 <= ti <= split_cmd@.len(),
                split_cmd.deep_view() == lines,
                lines.len() == split_cmd@.len(),
                wrap_indent@ == wi,
                out.deep_view() == base + first + lines.subrange(1, ti as int).map_values(
                    |l: Seq<char>| indent@ + wi + seq![' ', ' '] + l,
                ),
            decreases split_cmd@.len() - ti,
        {
            let mut row = String::new();
            row.append(indent);
            row.append(wrap_indent.as_str());
            row.append("  ");
            row.append(split_cmd[ti].as_str());
            proof {
                reveal_strlit("  ");
                assert("  "@ =~= seq![' ', ' ']);
                assert(split_cmd@[ti as int]@ == lines[ti as int]);
                assert(row@ =~= indent@ + wi + seq![' ', ' '] + lines[ti as int]);
            }
            let ghost pre_dv = out.deep_view();
            let ghost pre_v = out@;
            out.push(row);
            proof {
                assert forall|m: int| 0 <= m < out@.len() implies out.deep_view()[m] == (if m
                    < pre_v.len() {
                    pre_dv[m]
                } else {
                    row@
                }) by {
                    assert(out.deep_view()[m] == out@[m]@);
                    if m < pre_v.len() {
                        assert(out@[m] == pre_v[m]);
                        assert(pre_dv[m] == pre_v[m]@);
                    }
                }
                assert(out.deep_view() =~= pre_dv.push(row@));
                assert(lines.subrange(1, ti + 1) =~= lines.subrange(1, ti as int).push(
                    lines[ti as int],
                ));
                assert(lines.subrange(1, ti + 1).map_values(
                    |l: Seq<char>| indent@ + wi + seq![' ', ' '] + l,
                ) =~= lines.subrange(1, ti as int).map_values(
                    |l: Seq<char>| indent@ + wi + seq![' ', ' '] + l,
                ).push(row@));
                assert(out.deep_view() =~= base + first + lines.subrange(1, ti + 1).map_values(
                    |l: Seq<char>| indent@ + wi + seq![' ', ' '] + l,
                ));
            }
            ti = ti + 1;
        }
        proof {
            assert(lines.subrange(1, ti as int) =~= lines.drop_first());
            assert(lines.subrange(1, ti as int).map_values(
                |l: Seq<char>| indent@ + wi + seq![' ', ' '] + l,
            ) =~= conts);
            assert(out.deep_view() == base + first + conts);
        }
    } else {
        proof {
            assert(first =~= Seq::<Seq<char>>::empty());
            assert(conts =~= Seq::<Seq<char>>::empty());
            assert(out.deep_view() =~= base + first + conts);
        }
    }
    let mut refs: Vec<&Process> = Vec::new();
    let mut k: usize = 0;
    while k < child.children.len()
        invariant
            k <= child.children@.len(),
            refs@.len() == k,
            forall|j: int| 0 <= j < k ==> *(#[trigger] refs@[j]) == child.children@[j],
        decreases child.children@.len() - k,
    {
        refs.push(&child.children[k]);
        k = k + 1;
    }
    let subw = if width > 3 {
        width - 3
    } else {
        0
    };
    proof {
        assert(subw as int == sub_floor(width as int, 3));
    }
    let mut new_indent = String::new();
    new_indent.append(indent);
    new_indent.append(indent_bar);
    new_indent.append("  ");
    proof {
        reveal_strlit("  ");
        assert("  "@ =~= seq![' ', ' ']);
        assert(new_indent@ =~= indent@ + indent_bar@ + seq![' ', ' ']);
        lemma_refs_height_eq(refs@, child.children@, 0);
        assert(refs_height(refs@, 0) < tree_height(*child));
    }
    let ghost mid = out.deep_view();
    print_trees(&refs, subw, new_indent.as_str(), out);
    proof {
        lemma_render_refs_eq(refs@, child.children@, subw as int, new_indent@, 0);
        assert(out.deep_view() == mid + spec_render_forest(
            child.children@,
            sub_floor(width as int, 3),
            indent@ + indent_bar@ + seq![' ', ' '],
            0,
        ));
        assert(out.deep_view() =~= base + spec_render_child(
            *child,
            width as int,
            indent@,
            turn@,
            indent_bar@,
        ));
    }
}

/// Emits the rows for a list of matched roots: every root but the last
/// under a branch connector continuing a vertical bar, the last under a
/// corner connector leaving blank padding.
pub fn print_trees(trees: &Vec<&Process>, width: usize, indent: &str, out: &mut Vec<String>)
    ensures
        final(out).deep_view() == old(out).deep_view() + spec_render_refs(
            trees@,
            width as int,
            indent@,
            0,
        ),
    decreases refs_height(trees@, 0), 1int,
{
    let ghost base = out.deep_view();
    let mut j: usize = 0;
    proof {
        assert(base + spec_render_refs(trees@, width as int, indent@, 0) =~= base
            + spec_render_refs(trees@, width as int, indent@, 0));
    }
    while j < trees.len()
        invariant
            j <= trees@.len(),
            out.deep_view() + spec_render_refs(trees@, width as int, indent@, j as int) == base
                + spec_render_refs(trees@, width as int, indent@, 0),
        decreases trees@.len() - j,
    {
        let last = j + 1 == trees.len();
        let turn = if last {
            "└─"
        } else {
            "├─"
        };
        let bar = if last {
            " "
        } else {
            "│"
        };
        proof {
            reveal_strlit("└─");
            reveal_strlit("├─");
            reveal_strlit(" ");
            reveal_strlit("│");
            if last {
                assert(turn@ =~= seq!['└', '─']);
                assert(bar@ =~= seq![' ']);
            } else {
                assert(turn@ =~= seq!['├', '─']);
                assert(bar@ =~= seq!['│']);
            }
            lemma_refs_height_bound(trees@, 0, j as int);
        }
        let ghost mid = out.deep_view();
        print_child(trees[j], width, indent, turn, bar, out);
        proof {
            assert(out.deep_view() + spec_render_refs(trees@, width as int, indent@, j + 1) =~= base
                + spec_render_refs(trees@, width as int, indent@, 0));
        }
        j = j + 1;
    }
    proof {
        assert(spec_render_refs(trees@, width as int, indent@, j as int) =~= Seq::<
            Seq<char>,
        >::empty());
        assert(out.deep_view() =~= base + spec_render_refs(trees@, width as int, indent@, 0));
    }
}

} // verus!
