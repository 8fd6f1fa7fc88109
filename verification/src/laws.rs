//! The laws of the library: what the parser, the compressor and the jump
//! table promise over all inputs, stated and proved once, here.

use vstd::prelude::*;
use crate::code::{balanced, depth, jump_table_of, matched_pair, scan, scan_ok};
use crate::code::{lemma_scan_bounds, lemma_scan_ok_monotone};
use crate::compress::{accumulating, compress_spec, comp_rec, merged};
use crate::exec::effs;
use crate::language::{default_language, Language};
use crate::ops::{cop_eff, op_eff, CompressedOp, Eff, Op};
use crate::parse::{is_token_pred, op_of, tokens};
use crate::state::{iter_steps, step, wrap_add, wrap_sub, MState};

verus! {

/// A successful bounded run passed through a defined state at every step
/// on the way.
proof fn lemma_iter_prefix(p: Seq<Eff>, jt: Seq<int>, s: MState, n: nat, j: nat)
    requires
        j <= n,
        iter_steps(p, jt, s, n) is Some,
    ensures
        iter_steps(p, jt, s, j) is Some,
    decreases n,
{
    if j < n {
        lemma_iter_prefix(p, jt, s, (n - 1) as nat, j);
    }
}

/// Running `a + b` steps is running `a` steps and then `b` more.
proof fn lemma_iter_add(p: Seq<Eff>, jt: Seq<int>, s: MState, a: nat, b: nat)
    ensures
        iter_steps(p, jt, s, a + b) == (match iter_steps(p, jt, s, a) {
            Some(s1) => iter_steps(p, jt, s1, b),
            None => None::<MState>,
        }),
    decreases b,
{
    if b > 0 {
        lemma_iter_add(p, jt, s, a, (b - 1) as nat);
        assert(a + b == (a + (b - 1) as nat) + 1);
    } else {
        assert(a + b == a);
    }
}

/// Symbol filtering: parsing a source with interleaved non-token characters
/// yields the same instruction sequence as parsing the source with those
/// characters removed.
pub proof fn lemma_symbol_filtering(lang: Language, s: Seq<char>)
    ensures
        tokens(lang, s) == tokens(lang, s.filter(is_token_pred(lang))),
    decreases s.len(),
{
    reveal(Seq::<_>::filter);
    let pred = is_token_pred(lang);
    if s.len() == 0 {
    } else {
        lemma_symbol_filtering(lang, s.drop_last());
        if pred(s.last()) {
            assert(s.filter(pred) == s.drop_last().filter(pred).push(s.last()));
            assert(s.filter(pred).drop_last() =~= s.drop_last().filter(pred));
            assert(s.filter(pred).last() == s.last());
            assert(tokens(lang, s.filter(pred)) == tokens(lang, s.drop_last().filter(pred))
                + seq![op_of(lang, s.last())]);
        } else {
            assert(s.filter(pred) == s.drop_last().filter(pred));
            assert(tokens(lang, s) =~= tokens(lang, s.drop_last()));
        }
    }
}

/// The eight role symbols are pairwise distinct, so no source character is
/// ambiguous.
pub open spec fn distinct_symbols(lang: Language) -> bool {
    &&& lang.inc != lang.dec
    &&& lang.inc != lang.inc_ptr
    &&& lang.inc != lang.dec_ptr
    &&& lang.inc != lang.put_char
    &&& lang.inc != lang.get_char
    &&& lang.inc != lang.loop_start
    &&& lang.inc != lang.loop_end
    &&& lang.dec != lang.inc_ptr
    &&& lang.dec != lang.dec_ptr
    &&& lang.dec != lang.put_char
    &&& lang.dec != lang.get_char
    &&& lang.dec != lang.loop_start
    &&& lang.dec != lang.loop_end
    &&& lang.inc_ptr != lang.dec_ptr
    &&& lang.inc_ptr != lang.put_char
    &&& lang.inc_ptr != lang.get_char
    &&& lang.inc_ptr != lang.loop_start
    &&& lang.inc_ptr != lang.loop_end
    &&& lang.dec_ptr != lang.put_char
    &&& lang.dec_ptr != lang.get_char
    &&& lang.dec_ptr != lang.loop_start
    &&& lang.dec_ptr != lang.loop_end
    &&& lang.put_char != lang.get_char
    &&& lang.put_char != lang.loop_start
    &&& lang.put_char != lang.loop_end
    &&& lang.get_char != lang.loop_start
    &&& lang.get_char != lang.loop_end
    &&& lang.loop_start != lang.loop_end
}

/// Each symbol of the custom language replaced by the canonical symbol of
/// the same role; every other character is kept.
pub open spec fn to_canonical(lang: Language, c: char) -> char {
    if c == lang.inc {
        '+'
    } else if c == lang.dec {
        '-'
    } else if c == lang.inc_ptr {
        '>'
    } else if c == lang.dec_ptr {
        '<'
    } else if c == lang.put_char {
        '.'
    } else if c == lang.get_char {
        ','
    } else if c == lang.loop_start {
        '['
    } else if c == lang.loop_end {
        ']'
    } else {
        c
    }
}

/// Custom symbol mapping: a language of eight distinct symbols assigns the
/// roles positionally, and parsing a source written in those symbols yields
/// the same instruction sequence as parsing the equivalent canonical-symbol
/// program. A character the custom language discards must not name a
/// canonical symbol, or the equivalent program would gain an instruction.
pub proof fn lemma_custom_symbol_mapping(lang: Language, s: Seq<char>)
    requires
        distinct_symbols(lang),
        forall|i: int|
            0 <= i < s.len() ==> lang.spec_is_token(#[trigger] s[i]) || !default_language(
            ).spec_is_token(s[i]),
    ensures
        tokens(lang, s) == tokens(
            default_language(),
            s.map_values(|c: char| to_canonical(lang, c)),
        ),
    decreases s.len(),
{
    let d = default_language();
    let f = |c: char| to_canonical(lang, c);
    if s.len() > 0 {
        let s0 = s.drop_last();
        let c = s.last();
        assert(forall|i: int| 0 <= i < s0.len() ==> s0[i] == #[trigger] s[i]);
        lemma_custom_symbol_mapping(lang, s0);
        assert(s.map_values(f).drop_last() =~= s0.map_values(f));
        assert(s.map_values(f).last() == f(c));
        if lang.spec_is_token(c) {
            assert(d.spec_is_token(f(c)));
            assert(op_of(d, f(c)) == op_of(lang, c));
        } else {
            assert(f(c) == c);
            assert(!d.spec_is_token(f(c)));
            assert(tokens(lang, s) =~= tokens(lang, s0));
            assert(tokens(d, s.map_values(f)) =~= tokens(d, s0.map_values(f)));
        }
    } else {
        assert(s.map_values(f) =~= Seq::<char>::empty());
    }
}

/// Adding `x` and then `y` to a cell, reducing modulo 256 in between, is
/// adding `x + y`.
proof fn lemma_mod_chain(a: int, x: int, y: int)
    ensures
        ((a + x) % 256 + y) % 256 == (a + x + y) % 256,
{
    vstd::arithmetic::div_mod::lemma_add_mod_noop_right(y, a + x, 256);
}

/// A run of `k` unit increments, executed as `k` dispatch steps inside a
/// successful run, adds `k` to the cell modulo 256 and advances the
/// program counter by `k`.
proof fn lemma_raw_adds(p: Seq<Eff>, jt: Seq<int>, s: MState, k: nat, n: nat, sf: MState)
    requires
        1 <= k,
        0 <= s.pc,
        s.pc + k <= p.len(),
        forall|u: int| s.pc <= u < s.pc + k ==> #[trigger] p[u] == Eff::Add(1),
        iter_steps(p, jt, s, n) == Some(sf),
        sf.pc == p.len(),
    ensures
        n >= k,
        0 <= s.pointer < s.mem.len(),
        iter_steps(p, jt, s, k) == Some(MState {
            mem: s.mem.update(s.pointer, (((s.mem[s.pointer] + k) % 256) as u8)),
            pc: s.pc + k,
            ..s
        }),
    decreases k,
{
    assert(s.pc < p.len());
    if n == 0 {
        assert(sf == s);
    }
    assert(n >= 1);
    lemma_iter_prefix(p, jt, s, n, 1);
    assert(iter_steps(p, jt, s, 0) == Some(s));
    assert(iter_steps(p, jt, s, 1) == step(p, jt, s));
    assert(0 <= s.pointer < s.mem.len()) by {
        if !(0 <= s.pointer < s.mem.len()) {
            assert(step(p, jt, s) is None);
        }
    }
    let v = s.mem[s.pointer];
    let s1 = MState { mem: s.mem.update(s.pointer, wrap_add(v, 1)), pc: s.pc + 1, ..s };
    assert(step(p, jt, s) == Some(s1));
    lemma_iter_add(p, jt, s, 1, (n - 1) as nat);
    assert(iter_steps(p, jt, s1, (n - 1) as nat) == Some(sf));
    if k == 1 {
        assert(s.mem.update(s.pointer, wrap_add(v, 1)) == s.mem.update(
            s.pointer,
            (((v + 1) % 256) as u8),
        ));
    } else {
        lemma_raw_adds(p, jt, s1, (k - 1) as nat, (n - 1) as nat, sf);
        lemma_iter_add(p, jt, s, 1, (k - 1) as nat);
        let t1 = MState {
            mem: s1.mem.update(s.pointer, (((s1.mem[s.pointer] + (k - 1)) % 256) as u8)),
            pc: s1.pc + (k - 1),
            ..s1
        };
        assert(iter_steps(p, jt, s, k) == Some(t1));
        assert(s1.mem[s.pointer] == ((v + 1) % 256) as u8);
        lemma_mod_chain(v as int, 1, k - 1);
        let target = MState {
            mem: s.mem.update(s.pointer, (((v + k) % 256) as u8)),
            pc: s.pc + k,
            ..s
        };
        assert(t1.mem =~= target.mem);
        assert(t1 =~= target);
    }
}

/// A run of `k` unit decrements subtracts `k` from the cell modulo 256; a
/// unit decrement is an addition of 255 modulo 256, so the run adds `255k`.
proof fn lemma_raw_subs(p: Seq<Eff>, jt: Seq<int>, s: MState, k: nat, n: nat, sf: MState)
    requires
        1 <= k,
        0 <= s.pc,
        s.pc + k <= p.len(),
        forall|u: int| s.pc <= u < s.pc + k ==> #[trigger] p[u] == Eff::Sub(1),
        iter_steps(p, jt, s, n) == Some(sf),
        sf.pc == p.len(),
    ensures
        n >= k,
        0 <= s.pointer < s.mem.len(),
        iter_steps(p, jt, s, k) == Some(MState {
            mem: s.mem.update(s.pointer, (((s.mem[s.pointer] + 255 * k) % 256) as u8)),
            pc: s.pc + k,
            ..s
        }),
    decreases k,
{
    assert(s.pc < p.len());
    if n == 0 {
        assert(sf == s);
    }
    assert(n >= 1);
    lemma_iter_prefix(p, jt, s, n, 1);
    assert(iter_steps(p, jt, s, 0) == Some(s));
    assert(iter_steps(p, jt, s, 1) == step(p, jt, s));
    assert(0 <= s.pointer < s.mem.len()) by {
        if !(0 <= s.pointer < s.mem.len()) {
            assert(step(p, jt, s) is None);
        }
    }
    let v = s.mem[s.pointer];
    let s1 = MState { mem: s.mem.update(s.pointer, wrap_sub(v, 1)), pc: s.pc + 1, ..s };
    assert(step(p, jt, s) == Some(s1));
    lemma_iter_add(p, jt, s, 1, (n - 1) as nat);
    assert(iter_steps(p, jt, s1, (n - 1) as nat) == Some(sf));
    assert(wrap_sub(v, 1) == ((v + 255) % 256) as u8);
    if k == 1 {
        assert(s.mem.update(s.pointer, wrap_sub(v, 1)) == s.mem.update(
            s.pointer,
            (((v + 255 * 1) % 256) as u8),
        ));
    } else {
        lemma_raw_subs(p, jt, s1, (k - 1) as nat, (n - 1) as nat, sf);
        lemma_iter_add(p, jt, s, 1, (k - 1) as nat);
        let t1 = MState {
            mem: s1.mem.update(s.pointer, (((s1.mem[s.pointer] + 255 * (k - 1)) % 256) as u8)),
            pc: s1.pc + (k - 1),
            ..s1
        };
        assert(iter_steps(p, jt, s, k) == Some(t1));
        assert(s1.mem[s.pointer] == ((v + 255) % 256) as u8);
        lemma_mod_chain(v as int, 255, 255 * (k - 1));
        let target = MState {
            mem: s.mem.update(s.pointer, (((v + 255 * k) % 256) as u8)),
            pc: s.pc + k,
            ..s
        };
        assert(t1.mem =~= target.mem);
        assert(t1 =~= target);
    }
}

/// A run of `k` unit forward moves advances the pointer by `k`; the run
/// succeeds exactly when the final pointer stays in the address space.
proof fn lemma_raw_fwds(p: Seq<Eff>, jt: Seq<int>, s: MState, k: nat, n: nat, sf: MState)
    requires
        1 <= k,
        0 <= s.pc,
        s.pc + k <= p.len(),
        forall|u: int| s.pc <= u < s.pc + k ==> #[trigger] p[u] == Eff::Forward(1),
        iter_steps(p, jt, s, n) == Some(sf),
        sf.pc == p.len(),
    ensures
        n >= k,
        s.pointer + k <= usize::MAX,
        iter_steps(p, jt, s, k) == Some(MState { pointer: s.pointer + k, pc: s.pc + k, ..s }),
    decreases k,
{
    assert(s.pc < p.len());
    if n == 0 {
        assert(sf == s);
    }
    assert(n >= 1);
    lemma_iter_prefix(p, jt, s, n, 1);
    assert(iter_steps(p, jt, s, 0) == Some(s));
    assert(iter_steps(p, jt, s, 1) == step(p, jt, s));
    assert(s.pointer + 1 <= usize::MAX) by {
        if !(s.pointer + 1 <= usize::MAX) {
            assert(step(p, jt, s) is None);
        }
    }
    let s1 = MState { pointer: s.pointer + 1, pc: s.pc + 1, ..s };
    assert(step(p, jt, s) == Some(s1));
    lemma_iter_add(p, jt, s, 1, (n - 1) as nat);
    assert(iter_steps(p, jt, s1, (n - 1) as nat) == Some(sf));
    if k > 1 {
        lemma_raw_fwds(p, jt, s1, (k - 1) as nat, (n - 1) as nat, sf);
        lemma_iter_add(p, jt, s, 1, (k - 1) as nat);
    }
}

/// A run of `k` unit backward moves retreats the pointer by `k`; the run
/// succeeds exactly when the pointer does not go below zero.
proof fn lemma_raw_backs(p: Seq<Eff>, jt: Seq<int>, s: MState, k: nat, n: nat, sf: MState)
    requires
        1 <= k,
        0 <= s.pc,
        s.pc + k <= p.len(),
        forall|u: int| s.pc <= u < s.pc + k ==> #[trigger] p[u] == Eff::Back(1),
        iter_steps(p, jt, s, n) == Some(sf),
        sf.pc == p.len(),
    ensures
        n >= k,
        k <= s.pointer,
        iter_steps(p, jt, s, k) == Some(MState { pointer: s.pointer - k, pc: s.pc + k, ..s }),
    decreases k,
{
    assert(s.pc < p.len());
    if n == 0 {
        assert(sf == s);
    }
    assert(n >= 1);
    lemma_iter_prefix(p, jt, s, n, 1);
    assert(iter_steps(p, jt, s, 0) == Some(s));
    assert(iter_steps(p, jt, s, 1) == step(p, jt, s));
    assert(1 <= s.pointer) by {
        if !(1 <= s.pointer) {
            assert(step(p, jt, s) is None);
        }
    }
    let s1 = MState { pointer: s.pointer - 1, pc: s.pc + 1, ..s };
    assert(step(p, jt, s) == Some(s1));
    lemma_iter_add(p, jt, s, 1, (n - 1) as nat);
    assert(iter_steps(p, jt, s1, (n - 1) as nat) == Some(sf));
    if k > 1 {
        lemma_raw_backs(p, jt, s1, (k - 1) as nat, (n - 1) as nat, sf);
        lemma_iter_add(p, jt, s, 1, (k - 1) as nat);
    }
}

/// What stands behind one compressed instruction: a run of `k` equal raw
/// instructions starting at `gstart(ci)`, merged; a non-accumulating
/// instruction always stands alone.
proof fn lemma_group_at(ops: Seq<Op>, ci: nat)
    requires
        ci < compress_spec(ops).len(),
    ensures
        0 <= gstart(ops, ci) < ops.len(),
        gstart(ops, ci + 1) == gstart(ops, ci) + head_run(ops.skip(gstart(ops, ci))),
        gstart(ops, ci) < gstart(ops, ci + 1) <= ops.len(),
        compress_spec(ops)[ci as int] == merged(
            ops[gstart(ops, ci)],
            (gstart(ops, ci + 1) - gstart(ops, ci)) as nat,
        ),
        forall|u: int|
            gstart(ops, ci) <= u < gstart(ops, ci + 1) ==> #[trigger] ops[u] == ops[gstart(
                ops,
                ci,
            )],
        !accumulating(ops[gstart(ops, ci)]) ==> gstart(ops, ci + 1) == gstart(ops, ci) + 1,
    {
    let cs = compress_spec(ops);
    lemma_gstart_props(ops, ci);
    let g = gstart(ops, ci);
    let tail = ops.skip(g);
    assert(cs.skip(ci as int).len() > 0);
    assert(tail.len() > 0) by {
        if tail.len() == 0 {
            assert(compress_spec(tail) =~= Seq::<CompressedOp>::empty());
        }
    }
    lemma_compress_group_split(tail);
    lemma_head_run_props(tail);
    let k = head_run(tail);
    assert(cs[ci as int] == cs.skip(ci as int)[0]);
    assert(tail[0] == ops[g]);
    assert forall|u: int| g <= u < g + k implies #[trigger] ops[u] == ops[g] by {
        assert(tail[u - g] == ops[u]);
        assert(tail[u - g] == tail[0]);
    }
}

/// Group starts increase strictly with the group index.
proof fn lemma_gstart_monotone(ops: Seq<Op>, c1: nat, c2: nat)
    requires
        c1 <= c2,
        c2 <= compress_spec(ops).len(),
    ensures
        gstart(ops, c1) <= gstart(ops, c2),
        c1 < c2 ==> gstart(ops, c1) < gstart(ops, c2),
    decreases c2,
{
    if c1 < c2 {
        lemma_gstart_monotone(ops, c1, (c2 - 1) as nat);
        lemma_group_at(ops, (c2 - 1) as nat);
    }
}

/// Every raw instruction lies in exactly one group; this finds its index.
proof fn lemma_find_group(ops: Seq<Op>, ci: nat, u: int) -> (c: nat)
    requires
        ci <= compress_spec(ops).len(),
        gstart(ops, ci) <= u < ops.len(),
    ensures
        ci <= c < compress_spec(ops).len(),
        gstart(ops, c) <= u < gstart(ops, c + 1),
    decreases compress_spec(ops).len() - ci,
{
    lemma_gstart_props(ops, ci);
    assert(ci < compress_spec(ops).len());
    lemma_group_at(ops, ci);
    if u < gstart(ops, ci + 1) {
        ci
    } else {
        lemma_find_group(ops, ci + 1, u)
    }
}

/// Nesting depth does not move across instructions that are not loop
/// delimiters.
proof fn lemma_depth_flat(p: Seq<Eff>, a: int, b: int)
    requires
        0 <= a <= b <= p.len(),
        forall|u: int| a <= u < b ==> !(#[trigger] p[u] is Start) && !(p[u] is End),
    ensures
        depth(p, b) == depth(p, a),
    decreases b - a,
{
    if a < b {
        lemma_depth_flat(p, a, b - 1);
    }
}

/// Nesting depth in the compressed program tracks nesting depth at the
/// matching group start of the raw program, and is constant inside a group.
proof fn lemma_depth_align(ops: Seq<Op>, ci: nat)
    requires
        ci <= compress_spec(ops).len(),
    ensures
        depth(effs(compress_spec(ops)), ci as int) == depth(effs(ops), gstart(ops, ci)),
    decreases ci,
{
    let p = effs(ops);
    let q = effs(compress_spec(ops));
    if ci > 0 {
        lemma_depth_align(ops, (ci - 1) as nat);
        lemma_group_at(ops, (ci - 1) as nat);
        let g = gstart(ops, (ci - 1) as nat);
        let g1 = gstart(ops, ci);
        let op = ops[g];
        if op == Op::LoopStart || op == Op::LoopEnd {
            assert(g1 == g + 1);
            assert(q[ci - 1] == cop_eff(merged(op, 1)));
        } else {
            assert(forall|u: int|
                g <= u < g1 ==> !(#[trigger] p[u] is Start) && !(p[u] is End));
            lemma_depth_flat(p, g, g1);
            assert(!(q[ci - 1] is Start) && !(q[ci - 1] is End));
        }
    }
}

/// A matched pair of the compressed program is a matched pair of the raw
/// program, at the group starts.
proof fn lemma_matched_transfer(ops: Seq<Op>, ci: int, cj: int)
    requires
        matched_pair(effs(compress_spec(ops)), ci, cj),
    ensures
        matched_pair(effs(ops), gstart(ops, ci as nat), gstart(ops, cj as nat)),
        ops[gstart(ops, ci as nat)] == Op::LoopStart,
        ops[gstart(ops, cj as nat)] == Op::LoopEnd,
        gstart(ops, (cj + 1) as nat) == gstart(ops, cj as nat) + 1,
        gstart(ops, (ci + 1) as nat) == gstart(ops, ci as nat) + 1,
    {
    let p = effs(ops);
    let q = effs(compress_spec(ops));
    let i = gstart(ops, ci as nat);
    let j = gstart(ops, cj as nat);
    lemma_group_at(ops, ci as nat);
    lemma_group_at(ops, cj as nat);
    lemma_gstart_monotone(ops, ci as nat, cj as nat);
    assert(ops[i] == Op::LoopStart) by {
        assert(q[ci] == cop_eff(merged(ops[i], (gstart(ops, (ci + 1) as nat) - i) as nat)));
    }
    assert(ops[j] == Op::LoopEnd) by {
        assert(q[cj] == cop_eff(merged(ops[j], (gstart(ops, (cj + 1) as nat) - j) as nat)));
    }
    lemma_depth_align(ops, ci as nat);
    lemma_depth_align(ops, cj as nat);
    lemma_depth_align(ops, (cj + 1) as nat);
    assert(depth(p, j + 1) == depth(q, cj + 1));
    assert(depth(p, i) == depth(q, ci));
    assert forall|u: int| i < u <= j implies #[trigger] depth(p, u) > depth(p, i) by {
        if u == j {
            assert(depth(q, cj) > depth(q, ci));
            lemma_depth_align(ops, cj as nat);
        } else {
            let c = lemma_find_group(ops, 0, u);
            lemma_group_at(ops, c);
            assert(c > ci) by {
                if c <= ci {
                    lemma_gstart_monotone(ops, c + 1, ci as nat);
                    assert(gstart(ops, c + 1) <= i);
                }
            }
            assert(c <= cj) by {
                if c > cj {
                    lemma_gstart_monotone(ops, (cj + 1) as nat, c);
                    assert(j < gstart(ops, c));
                }
            }
            assert(depth(q, c as int) > depth(q, ci));
            lemma_depth_align(ops, c);
            if u > gstart(ops, c) {
                assert(forall|w: int|
                    gstart(ops, c) <= w < u ==> !(#[trigger] p[w] is Start) && !(p[w] is End))
                    by {
                    assert(c < cj);
                    let gc = gstart(ops, c);
                    assert(forall|w: int|
                        gc <= w < gstart(ops, c + 1) ==> #[trigger] ops[w] == ops[gc]);
                    assert(accumulating(ops[gstart(ops, c)]));
                }
                lemma_depth_flat(p, gstart(ops, c), u);
            }
        }
    }
}

/// Every loop end of a prefix with no unmatched closer has its matching
/// loop start: the top of the scan stack just before it.
proof fn lemma_end_matched(p: Seq<Eff>, j: int) -> (b: int)
    requires
        0 <= j < p.len(),
        p[j] is End,
        scan_ok(p, (j + 1) as nat),
    ensures
        matched_pair(p, b, j),
    {
    lemma_scan_ok_monotone(p, j as nat, (j + 1) as nat);
    lemma_scan_invariant(p, j as nat);
    lemma_scan_bounds(p, j as nat);
    let st = scan(p, j as nat).1;
    assert(st.len() > 0);
    let b = st.last();
    let tb = st.len() - 1;
    assert(st[tb] == b);
    assert(p[b] is Start);
    assert(depth(p, b) == tb);
    assert(depth(p, b + 1) == tb + 1);
    assert(depth(p, j) == st.len());
    assert(depth(p, j + 1) == depth(p, j) - 1);
    assert(forall|u: int| b < u <= j ==> #[trigger] depth(p, u) >= tb + 1);
    b
}

/// Between a point at depth `d` and a later point below `d` stands a first
/// crossing: a loop end that brings the depth from `d` down to `d - 1`,
/// with the depth staying at least `d` before it.
proof fn lemma_find_crossing(q: Seq<Eff>, a: int, b: int, d: int) -> (j: int)
    requires
        0 <= a <= b <= q.len(),
        depth(q, a) >= d,
        depth(q, b) < d,
    ensures
        a <= j < b,
        q[j] is End,
        depth(q, j + 1) == d - 1,
        forall|u: int| a <= u <= j ==> #[trigger] depth(q, u) >= d,
    decreases b - a,
{
    assert(a < b);
    assert(depth(q, a + 1) >= depth(q, a) - 1);
    if depth(q, a + 1) < d {
        assert(depth(q, a + 1) == d - 1);
        assert(q[a] is End);
        a
    } else {
        let j = lemma_find_crossing(q, a + 1, b, d);
        j
    }
}

/// Every loop start of a program whose delimiters balance has a matching
/// loop end.
proof fn lemma_start_matched(q: Seq<Eff>, i: int) -> (j: int)
    requires
        0 <= i < q.len(),
        q[i] is Start,
        depth(q, i) >= 0,
        depth(q, q.len() as int) == 0,
    ensures
        matched_pair(q, i, j),
    {
    let d = depth(q, i) + 1;
    assert(depth(q, i + 1) == d);
    let j = lemma_find_crossing(q, i + 1, q.len() as int, d);
    assert(forall|u: int| i < u <= j ==> #[trigger] depth(q, u) >= d);
    j
}

/// Two loop starts cannot match the same loop end.
proof fn lemma_matched_unique_start(p: Seq<Eff>, i1: int, i2: int, j: int)
    requires
        matched_pair(p, i1, j),
        matched_pair(p, i2, j),
    ensures
        i1 == i2,
{
    if i1 < i2 {
        assert(depth(p, i2) > depth(p, i1));
    } else if i2 < i1 {
        assert(depth(p, i1) > depth(p, i2));
    }
}

/// A loop start matches at most one loop end.
proof fn lemma_matched_unique_end(p: Seq<Eff>, i: int, j1: int, j2: int)
    requires
        matched_pair(p, i, j1),
        matched_pair(p, i, j2),
    ensures
        j1 == j2,
{
    if j1 < j2 {
        assert(i < j1 + 1 <= j2);
        assert(depth(p, j1 + 1) > depth(p, i));
    } else if j2 < j1 {
        assert(i < j2 + 1 <= j1);
        assert(depth(p, j2 + 1) > depth(p, i));
    }
}

/// The running invariant of the stack scan: the stack holds, bottom to
/// top, the open loop starts, the entry at height `t` was pushed at depth
/// `t` and everything after it stays deeper, and the jump table already
/// holds both entries of every pair whose closer lies inside the prefix.
proof fn lemma_scan_invariant(p: Seq<Eff>, k: nat)
    requires
        k <= p.len(),
        scan_ok(p, k),
    ensures
        scan(p, k).1.len() == depth(p, k as int),
        forall|t: int| 0 <= t < scan(p, k).1.len() ==> p[#[trigger] scan(p, k).1[t]] is Start,
        forall|t: int| 0 <= t < scan(p, k).1.len() ==> depth(p, #[trigger] scan(p, k).1[t]) == t,
        forall|t: int|
            0 <= t < scan(p, k).1.len() ==> depth(p, #[trigger] scan(p, k).1[t] + 1) == t + 1,
        forall|t: int, u: int|
            #![trigger scan(p, k).1[t], depth(p, u)]
            0 <= t < scan(p, k).1.len() && scan(p, k).1[t] < u <= k ==> depth(p, u) >= t + 1,
        forall|i: int, j: int|
            #[trigger] matched_pair(p, i, j) && j < k ==> scan(p, k).0[i] == j + 1 && scan(
                p,
                k,
            ).0[j] == i + 1,
    decreases k,
{
    lemma_scan_bounds(p, k);
    if k > 0 {
        let k1 = (k - 1) as nat;
        lemma_scan_invariant(p, k1);
        lemma_scan_bounds(p, k1);
        let st0 = scan(p, k1).1;
        let jt0 = scan(p, k1).0;
        let st = scan(p, k).1;
        let jt = scan(p, k).0;
        let e = p[k - 1];
        match e {
            Eff::Start => {
                assert(st == st0.push(k - 1));
                assert(depth(p, k as int) == depth(p, k as int - 1) + 1);
                assert forall|i: int, j: int|
                    #[trigger] matched_pair(p, i, j) && j < k implies jt[i] == j + 1 && jt[j] == i
                    + 1 by {
                    assert(j != k - 1);
                }
            },
            Eff::End => {
                assert(st0.len() > 0);
                let b = st0.last();
                let tb = st0.len() - 1;
                assert(st0[tb] == b);
                assert(st == st0.drop_last());
                assert(jt == jt0.push(0).update(b, k as int).update(k - 1, b + 1));
                assert(depth(p, k as int) == depth(p, k as int - 1) - 1);
                assert(p[b] is Start);
                assert(depth(p, b) == tb);
                assert(depth(p, b + 1) == tb + 1);
                assert(depth(p, k as int - 1) == st0.len());
                assert(matched_pair(p, b, k - 1)) by {
                    assert(forall|u: int|
                        b < u <= k - 1 ==> #[trigger] depth(p, u) >= tb + 1);
                }
                assert forall|i: int, j: int|
                    #[trigger] matched_pair(p, i, j) && j < k implies jt[i] == j + 1 && jt[j] == i
                    + 1 by {
                    if j == k - 1 {
                        lemma_matched_unique_start(p, i, b, k - 1);
                        assert(jt[b] == k);
                        assert(jt[k - 1] == b + 1);
                    } else {
                        assert(j < k1);
                        if i == b {
                            lemma_matched_unique_end(p, b, j, k - 1);
                        }
                        assert(p[j] is End && p[b] is Start);
                        assert(i != b && i != k - 1 && j != b && j != k - 1);
                        assert(jt[i] == jt0[i] && jt[j] == jt0[j]);
                    }
                }
            },
            _ => {
                assert(st == st0);
                assert(depth(p, k as int) == depth(p, k as int - 1));
                assert forall|i: int, j: int|
                    #[trigger] matched_pair(p, i, j) && j < k implies jt[i] == j + 1 && jt[j] == i
                    + 1 by {
                    assert(j != k - 1);
                }
            },
        }
    }
}

/// Group-by-group simulation: from a raw state and a compressed state that
/// agree on everything but their program counters, which stand at the two
/// sides of group boundary `ci`, a raw run to a clean halt is matched by a
/// compressed run to a clean halt with the same memory, pointer, input
/// cursor and output.
proof fn lemma_simulate(ops: Seq<Op>, s: MState, t: MState, ci: nat, n: nat, sf: MState) -> (r: (
    nat,
    MState,
))
    requires
        ops.len() <= usize::MAX,
        balanced(effs(ops)),
        scan_ok(effs(compress_spec(ops)), compress_spec(ops).len()),
        ci <= compress_spec(ops).len(),
        t.pc == ci,
        s.pc == gstart(ops, ci),
        s.mem == t.mem,
        s.pointer == t.pointer,
        s.input == t.input,
        s.cursor == t.cursor,
        s.output == t.output,
        iter_steps(effs(ops), jump_table_of(effs(ops)), s, n) == Some(sf),
        sf.pc == effs(ops).len(),
    ensures
        iter_steps(effs(compress_spec(ops)), jump_table_of(effs(compress_spec(ops))), t, r.0)
            == Some(r.1),
        r.1.pc == compress_spec(ops).len(),
        r.1.mem == sf.mem,
        r.1.pointer == sf.pointer,
        r.1.input == sf.input,
        r.1.cursor == sf.cursor,
        r.1.output == sf.output,
    decreases n,
{
    let p = effs(ops);
    let cs = compress_spec(ops);
    let q = effs(cs);
    let jt = jump_table_of(p);
    let qt = jump_table_of(q);
    lemma_gstart_props(ops, ci);
    assert(p.len() == ops.len());
    assert(q.len() == cs.len());
    assert(iter_steps(p, jt, s, 0) == Some(s));
    assert(iter_steps(q, qt, t, 0) == Some(t));
    if ci == cs.len() {
        assert(s.pc == p.len());
        if n >= 1 {
            lemma_iter_prefix(p, jt, s, n, 1);
            assert(iter_steps(p, jt, s, 1) == step(p, jt, s));
            assert(step(p, jt, s) is None);
        }
        assert(sf == s);
        (0nat, t)
    } else {
        lemma_group_at(ops, ci);
        let g = gstart(ops, ci);
        let g1 = gstart(ops, ci + 1);
        let k = (g1 - g) as nat;
        let op = ops[g];
        assert(cs[ci as int] == merged(op, k));
        assert(q[ci as int] == cop_eff(merged(op, k)));
        assert forall|u: int| g <= u < g1 implies #[trigger] p[u] == op_eff(op) by {
            assert(ops[u] == op);
        }
        match op {
            Op::Inc => {
                lemma_raw_adds(p, jt, s, k, n, sf);
                let v = s.mem[s.pointer];
                let s2 = MState {
                    mem: s.mem.update(s.pointer, (((v + k) % 256) as u8)),
                    pc: s.pc + k,
                    ..s
                };
                assert(iter_steps(p, jt, s, k) == Some(s2));
                lemma_iter_add(p, jt, s, k, (n - k) as nat);
                let w = ((k % 256) as u8);
                assert(q[ci as int] == Eff::Add(w));
                let t2 = MState {
                    mem: t.mem.update(t.pointer, wrap_add(v, w)),
                    pc: ci as int + 1,
                    ..t
                };
                assert(step(q, qt, t) == Some(t2));
                assert(wrap_add(v, w) == (((v + k) % 256) as u8)) by {
                    vstd::arithmetic::div_mod::lemma_add_mod_noop_right(v as int, k as int, 256);
                }
                let rr = lemma_simulate(ops, s2, t2, ci + 1, (n - k) as nat, sf);
                assert(iter_steps(q, qt, t, 1) == Some(t2));
                lemma_iter_add(q, qt, t, 1, rr.0);
                ((1 + rr.0) as nat, rr.1)
            },
            Op::Dec => {
                lemma_raw_subs(p, jt, s, k, n, sf);
                let v = s.mem[s.pointer];
                let s2 = MState {
                    mem: s.mem.update(s.pointer, (((v + 255 * k) % 256) as u8)),
                    pc: s.pc + k,
                    ..s
                };
                assert(iter_steps(p, jt, s, k) == Some(s2));
                lemma_iter_add(p, jt, s, k, (n - k) as nat);
                let w = ((k % 256) as u8);
                assert(q[ci as int] == Eff::Sub(w));
                let t2 = MState {
                    mem: t.mem.update(t.pointer, wrap_sub(v, w)),
                    pc: ci as int + 1,
                    ..t
                };
                assert(step(q, qt, t) == Some(t2));
                assert(wrap_sub(v, w) == (((v + 255 * k) % 256) as u8)) by {
                    vstd::arithmetic::div_mod::lemma_fundamental_div_mod(k as int, 256);
                    vstd::arithmetic::div_mod::lemma_mod_multiples_vanish(
                        k as int - 1 - (k as int / 256),
                        v + 256 - (k as int % 256),
                        256,
                    );
                }
                let rr = lemma_simulate(ops, s2, t2, ci + 1, (n - k) as nat, sf);
                assert(iter_steps(q, qt, t, 1) == Some(t2));
                lemma_iter_add(q, qt, t, 1, rr.0);
                ((1 + rr.0) as nat, rr.1)
            },
            Op::IncPtr => {
                lemma_raw_fwds(p, jt, s, k, n, sf);
                let s2 = MState { pointer: s.pointer + k, pc: s.pc + k, ..s };
                assert(iter_steps(p, jt, s, k) == Some(s2));
                lemma_iter_add(p, jt, s, k, (n - k) as nat);
                assert(q[ci as int] == Eff::Forward((k as usize) as nat));
                assert((k as usize) as nat == k);
                let t2 = MState { pointer: t.pointer + k, pc: ci as int + 1, ..t };
                assert(step(q, qt, t) == Some(t2));
                let rr = lemma_simulate(ops, s2, t2, ci + 1, (n - k) as nat, sf);
                assert(iter_steps(q, qt, t, 1) == Some(t2));
                lemma_iter_add(q, qt, t, 1, rr.0);
                ((1 + rr.0) as nat, rr.1)
            },
            Op::DecPtr => {
                lemma_raw_backs(p, jt, s, k, n, sf);
                let s2 = MState { pointer: s.pointer - k, pc: s.pc + k, ..s };
                assert(iter_steps(p, jt, s, k) == Some(s2));
                lemma_iter_add(p, jt, s, k, (n - k) as nat);
                assert(q[ci as int] == Eff::Back((k as usize) as nat));
                assert((k as usize) as nat == k);
                let t2 = MState { pointer: t.pointer - k, pc: ci as int + 1, ..t };
                assert(step(q, qt, t) == Some(t2));
                let rr = lemma_simulate(ops, s2, t2, ci + 1, (n - k) as nat, sf);
                assert(iter_steps(q, qt, t, 1) == Some(t2));
                lemma_iter_add(q, qt, t, 1, rr.0);
                ((1 + rr.0) as nat, rr.1)
            },
            _ => {
                assert(k == 1);
                assert(g1 == g + 1);
                if n == 0 {
                    assert(sf == s);
                }
                assert(n >= 1);
                lemma_iter_prefix(p, jt, s, n, 1);
                assert(iter_steps(p, jt, s, 1) == step(p, jt, s));
                assert(step(p, jt, s) is Some);
                assert(0 <= s.pointer < s.mem.len()) by {
                    if !(0 <= s.pointer < s.mem.len()) {
                        assert(step(p, jt, s) is None);
                    }
                }
                lemma_iter_add(p, jt, s, 1, (n - 1) as nat);
                let s2 = step(p, jt, s)->Some_0;
                assert(iter_steps(p, jt, s2, (n - 1) as nat) == Some(sf));
                let (t2, ci2): (MState, nat) = match op {
                    Op::PutChar => {
                        assert(q[ci as int] == Eff::Put);
                        assert(s2 == MState {
                            output: s.output.push(s.mem[s.pointer]),
                            pc: g + 1,
                            ..s
                        });
                        (
                            MState { output: t.output.push(t.mem[t.pointer]), pc: ci as int + 1, ..t },
                            ci + 1,
                        )
                    },
                    Op::GetChar => {
                        assert(q[ci as int] == Eff::Get);
                        if 0 <= s.cursor < s.input.len() {
                            assert(s2 == MState {
                                mem: s.mem.update(s.pointer, s.input[s.cursor]),
                                cursor: s.cursor + 1,
                                pc: g + 1,
                                ..s
                            });
                            (
                                MState {
                                    mem: t.mem.update(t.pointer, t.input[t.cursor]),
                                    cursor: t.cursor + 1,
                                    pc: ci as int + 1,
                                    ..t
                                },
                                ci + 1,
                            )
                        } else {
                            assert(s2 == MState {
                                mem: s.mem.update(s.pointer, 0u8),
                                pc: g + 1,
                                ..s
                            });
                            (
                                MState { mem: t.mem.update(t.pointer, 0u8), pc: ci as int + 1, ..t },
                                ci + 1,
                            )
                        }
                    },
                    Op::LoopStart => {
                        assert(p[g] is Start);
                        assert(q[ci as int] is Start);
                        if s.mem[s.pointer] == 0 {
                            lemma_scan_invariant(p, p.len() as nat);
                            lemma_gstart_props(ops, cs.len());
                            lemma_depth_align(ops, cs.len());
                            assert(depth(q, q.len() as int) == 0);
                            lemma_scan_ok_monotone(q, ci, cs.len());
                            lemma_scan_invariant(q, ci);
                            assert(depth(q, ci as int) >= 0);
                            let cj = lemma_start_matched(q, ci as int);
                            lemma_jump_table_correct(q, ci as int, cj);
                            lemma_matched_transfer(ops, ci as int, cj);
                            lemma_jump_table_correct(p, g, gstart(ops, cj as nat));
                            assert(s2 == MState { pc: jt[g], ..s });
                            assert(s2.pc == gstart(ops, (cj + 1) as nat));
                            (MState { pc: qt[ci as int], ..t }, (cj + 1) as nat)
                        } else {
                            assert(s2 == MState { pc: g + 1, ..s });
                            (MState { pc: ci as int + 1, ..t }, ci + 1)
                        }
                    },
                    _ => {
                        assert(op == Op::LoopEnd);
                        assert(p[g] is End);
                        assert(q[ci as int] is End);
                        if s.mem[s.pointer] != 0 {
                            lemma_scan_ok_monotone(q, (ci + 1) as nat, cs.len());
                            let b = lemma_end_matched(q, ci as int);
                            lemma_jump_table_correct(q, b, ci as int);
                            lemma_matched_transfer(ops, b, ci as int);
                            lemma_jump_table_correct(p, gstart(ops, b as nat), g);
                            assert(s2 == MState { pc: jt[g], ..s });
                            assert(s2.pc == gstart(ops, (b + 1) as nat));
                            (MState { pc: qt[ci as int], ..t }, (b + 1) as nat)
                        } else {
                            assert(s2 == MState { pc: g + 1, ..s });
                            (MState { pc: ci as int + 1, ..t }, ci + 1)
                        }
                    },
                };
                assert(step(q, qt, t) == Some(t2));
                let rr = lemma_simulate(ops, s2, t2, ci2, (n - 1) as nat, sf);
                assert(iter_steps(q, qt, t, 1) == Some(t2));
                lemma_iter_add(q, qt, t, 1, rr.0);
                ((1 + rr.0) as nat, rr.1)
            },
        }
    }
}

/// Compression cannot fail on a well-formed program: every loop end of the
/// compressed sequence still has an open loop start in front of it, so the
/// compressor, whose only error is an unmatched closer, returns a program.
pub proof fn lemma_compress_succeeds_on_balanced(ops: Seq<Op>, ci: nat)
    requires
        balanced(effs(ops)),
        ci <= compress_spec(ops).len(),
    ensures
        scan_ok(effs(compress_spec(ops)), ci),
    decreases ci,
{
    let p = effs(ops);
    let q = effs(compress_spec(ops));
    if ci > 0 {
        lemma_compress_succeeds_on_balanced(ops, (ci - 1) as nat);
        if q[ci - 1] is End {
            lemma_scan_invariant(q, (ci - 1) as nat);
            lemma_depth_align(ops, (ci - 1) as nat);
            lemma_group_at(ops, (ci - 1) as nat);
            let g = gstart(ops, (ci - 1) as nat);
            assert(ops[g] == Op::LoopEnd) by {
                assert(q[ci - 1] == cop_eff(
                    merged(ops[g], (gstart(ops, ci) - g) as nat),
                ));
            }
            assert(p[g] is End);
            lemma_scan_ok_monotone(p, (g + 1) as nat, p.len() as nat);
            lemma_scan_ok_monotone(p, g as nat, p.len() as nat);
            lemma_scan_invariant(p, g as nat);
            assert(scan(p, g as nat).1.len() > 0);
            assert(depth(p, g) > 0);
        }
    }
}

/// Round-trip execution equivalence: a well-formed program that runs its
/// raw instruction sequence to a clean halt runs its compressed form to a
/// clean halt too, with the same final memory, pointer, input cursor and
/// output. Well-formedness is `balanced`, which the parser promises of
/// every program it returns.
pub proof fn lemma_round_trip_equivalence(ops: Seq<Op>, s0: MState, n: nat, sf: MState) -> (r: (
    nat,
    MState,
))
    requires
        ops.len() <= usize::MAX,
        balanced(effs(ops)),
        s0.pc == 0,
        iter_steps(effs(ops), jump_table_of(effs(ops)), s0, n) == Some(sf),
        sf.pc == effs(ops).len(),
    ensures
        iter_steps(effs(compress_spec(ops)), jump_table_of(effs(compress_spec(ops))), s0, r.0)
            == Some(r.1),
        r.1.pc == compress_spec(ops).len(),
        r.1.mem == sf.mem,
        r.1.pointer == sf.pointer,
        r.1.input == sf.input,
        r.1.cursor == sf.cursor,
        r.1.output == sf.output,
{
    lemma_compress_succeeds_on_balanced(ops, compress_spec(ops).len());
    lemma_simulate(ops, s0, s0, 0, n, sf)
}

/// Jump-table correctness: for every matched loop start and loop end at
/// indices `i < j` of a program with no unmatched closer, the jump table
/// holds `j + 1` at `i` (where to resume when the loop is skipped) and
/// `i + 1` at `j` (where to resume when the loop repeats). The parser and
/// the compressor each promise their rebuilt table equals `jump_table_of`
/// of their own instruction sequence, so this law covers both the raw and
/// the compressed form.
pub proof fn lemma_jump_table_correct(p: Seq<Eff>, i: int, j: int)
    requires
        scan_ok(p, p.len()),
        matched_pair(p, i, j),
    ensures
        jump_table_of(p)[i] == j + 1,
        jump_table_of(p)[j] == i + 1,
{
    lemma_scan_invariant(p, p.len());
}

/// The run of an accumulating `op` at the head of `Seq::new(k, op) + rest`
/// joins the pending count.
proof fn lemma_comp_rec_run(op: Op, k: nat, rest: Seq<Op>, c: nat)
    requires
        c >= 1,
        accumulating(op),
        rest.len() > 0 ==> rest[0] != op,
    ensures
        comp_rec(Seq::new(k, |i: int| op) + rest, op, c) == seq![merged(op, c + k)]
            + compress_spec(rest),
    decreases k,
{
    let reps = Seq::new(k, |i: int| op);
    if k == 0 {
        assert(reps + rest =~= rest);
        if rest.len() == 0 {
            assert(compress_spec(rest) =~= Seq::<CompressedOp>::empty());
            assert(seq![merged(op, c)] + compress_spec(rest) =~= seq![merged(op, c)]);
        } else {
            assert(comp_rec(rest, op, c) == seq![merged(op, c)] + comp_rec(
                rest.drop_first(),
                rest[0],
                1,
            ));
        }
    } else {
        assert((reps + rest)[0] == op);
        assert((reps + rest).drop_first() =~= Seq::new((k - 1) as nat, |i: int| op) + rest);
        lemma_comp_rec_run(op, (k - 1) as nat, rest, c + 1);
    }
}

/// The length of the run the compressor merges at the head of the
/// sequence: the maximal run of the first instruction when it accumulates,
/// and one otherwise.
pub open spec fn head_run(ops: Seq<Op>) -> nat
    decreases ops.len(),
{
    if ops.len() >= 2 && ops[1] == ops[0] && accumulating(ops[0]) {
        1 + head_run(ops.drop_first())
    } else {
        1
    }
}

proof fn lemma_head_run_props(ops: Seq<Op>)
    requires
        ops.len() > 0,
    ensures
        1 <= head_run(ops) <= ops.len(),
        forall|u: int| 0 <= u < head_run(ops) ==> #[trigger] ops[u] == ops[0],
        !accumulating(ops[0]) ==> head_run(ops) == 1,
        head_run(ops) < ops.len() ==> !(ops[head_run(ops) as int] == ops[0] && accumulating(
            ops[0],
        )),
    decreases ops.len(),
{
    if ops.len() >= 2 && ops[1] == ops[0] && accumulating(ops[0]) {
        lemma_head_run_props(ops.drop_first());
        assert forall|u: int| 0 <= u < head_run(ops) implies #[trigger] ops[u] == ops[0] by {
            if u >= 1 {
                assert(ops.drop_first()[u - 1] == ops.drop_first()[0]);
                assert(ops.drop_first()[u - 1] == ops[u]);
                assert(ops.drop_first()[0] == ops[1]);
            }
        }
    }
}

/// The compressor always takes exactly the head run as its first group.
proof fn lemma_compress_group_split(ops: Seq<Op>)
    requires
        ops.len() > 0,
    ensures
        compress_spec(ops) == seq![merged(ops[0], head_run(ops))] + compress_spec(
            ops.skip(head_run(ops) as int),
        ),
{
    let k = head_run(ops);
    lemma_head_run_props(ops);
    if !accumulating(ops[0]) {
        assert(k == 1);
        assert(ops.drop_first() =~= ops.skip(1));
        if ops.len() == 1 {
            assert(compress_spec(ops) == seq![merged(ops[0], 1)]);
            assert(seq![merged(ops[0], 1)] + compress_spec(ops.skip(1)) =~= seq![
                merged(ops[0], 1),
            ]);
        } else {
            assert(compress_spec(ops) == comp_rec(ops.drop_first(), ops[0], 1));
            assert(comp_rec(ops.drop_first(), ops[0], 1) == seq![merged(ops[0], 1)] + comp_rec(
                ops.drop_first().drop_first(),
                ops.drop_first()[0],
                1,
            ));
        }
    } else {
        let rest = ops.skip(k as int);
        assert(rest.len() > 0 ==> rest[0] != ops[0]);
        assert(ops.drop_first() =~= Seq::new((k - 1) as nat, |i: int| ops[0]) + rest);
        lemma_comp_rec_run(ops[0], (k - 1) as nat, rest, 1);
    }
}

/// The raw index where the group behind compressed index `ci` begins.
pub open spec fn gstart(ops: Seq<Op>, ci: nat) -> int
    decreases ci,
{
    if ci == 0 {
        0
    } else {
        let g = gstart(ops, (ci - 1) as nat);
        g + head_run(ops.skip(g))
    }
}

/// The alignment of the compressed program with the raw one: dropping `ci`
/// compressed instructions is compressing with the first `gstart(ci)` raw
/// instructions dropped, and the groups tile the raw program.
proof fn lemma_gstart_props(ops: Seq<Op>, ci: nat)
    requires
        ci <= compress_spec(ops).len(),
    ensures
        0 <= gstart(ops, ci) <= ops.len(),
        compress_spec(ops).skip(ci as int) == compress_spec(ops.skip(gstart(ops, ci))),
        ci < compress_spec(ops).len() ==> gstart(ops, ci) < ops.len(),
        ci == compress_spec(ops).len() ==> gstart(ops, ci) == ops.len(),
    decreases ci,
{
    let cs = compress_spec(ops);
    if ci == 0 {
        assert(cs.skip(0) =~= cs);
        assert(ops.skip(0) =~= ops);
        if cs.len() == 0 && ops.len() > 0 {
            lemma_compress_group_split(ops);
        }
    } else {
        lemma_gstart_props(ops, (ci - 1) as nat);
        let g = gstart(ops, (ci - 1) as nat);
        let tail = ops.skip(g);
        assert(cs.skip(ci - 1).len() > 0);
        assert(tail.len() > 0) by {
            if tail.len() == 0 {
                assert(compress_spec(tail) =~= Seq::<CompressedOp>::empty());
            }
        }
        assert(g < ops.len());
        lemma_compress_group_split(tail);
        lemma_head_run_props(tail);
        let k = head_run(tail);
        assert(gstart(ops, ci) == g + k);
        assert(tail.skip(k as int) =~= ops.skip(g + k));
        assert(cs.skip(ci as int) =~= compress_spec(tail).drop_first());
        assert(compress_spec(tail).drop_first() =~= compress_spec(tail.skip(k as int)));
        if ci == cs.len() {
            assert(compress_spec(ops.skip(g + k)).len() == 0);
            if g + k < ops.len() {
                lemma_compress_group_split(ops.skip(g + k));
            }
        }
    }
}

/// Compression merging: `n` consecutive increments followed by anything
/// that does not begin with an increment compress to the single counted
/// instruction `Add(n mod 256)` in front of the compressed rest.
pub proof fn lemma_compress_merges_increments(n: nat, rest: Seq<Op>)
    requires
        n >= 1,
        rest.len() > 0 ==> rest[0] != Op::Inc,
    ensures
        compress_spec(Seq::new(n, |i: int| Op::Inc) + rest) == seq![
            CompressedOp::Add(((n % 256) as u8)),
        ] + compress_spec(rest),
{
    let incs = Seq::new(n, |i: int| Op::Inc);
    assert((incs + rest)[0] == Op::Inc);
    assert((incs + rest).len() > 0);
    assert((incs + rest).drop_first() =~= Seq::new((n - 1) as nat, |i: int| Op::Inc) + rest);
    lemma_comp_rec_run(Op::Inc, (n - 1) as nat, rest, 1);
    assert(merged(Op::Inc, n) == CompressedOp::Add(((n % 256) as u8)));
}

/// Compression keeps writes apart: `n` consecutive write instructions stay
/// `n` separate write instructions; repeatable output is never counted.
pub proof fn lemma_compress_keeps_writes(n: nat)
    ensures
        compress_spec(Seq::new(n, |i: int| Op::PutChar)) == Seq::new(
            n,
            |i: int| CompressedOp::PutChar,
        ),
{
    if n == 0 {
        assert(compress_spec(Seq::new(0, |i: int| Op::PutChar)) =~= Seq::new(
            0,
            |i: int| CompressedOp::PutChar,
        ));
    } else {
        let puts = Seq::new(n, |i: int| Op::PutChar);
        assert(puts[0] == Op::PutChar);
        assert(puts.drop_first() =~= Seq::new((n - 1) as nat, |i: int| Op::PutChar));
        lemma_comp_rec_puts((n - 1) as nat, 1);
        assert(seq![merged(Op::PutChar, 1)] + Seq::new(
            (n - 1) as nat,
            |i: int| CompressedOp::PutChar,
        ) =~= Seq::new(n, |i: int| CompressedOp::PutChar));
    }
}

/// A pending write run always flushes to single writes, whatever the count.
proof fn lemma_comp_rec_puts(k: nat, c: nat)
    ensures
        comp_rec(Seq::new(k, |i: int| Op::PutChar), Op::PutChar, c) == seq![
            CompressedOp::PutChar,
        ] + Seq::new(k, |i: int| CompressedOp::PutChar),
    decreases k,
{
    let puts = Seq::new(k, |i: int| Op::PutChar);
    if k == 0 {
        assert(comp_rec(puts, Op::PutChar, c) == seq![merged(Op::PutChar, c)]);
        assert(seq![CompressedOp::PutChar] + Seq::new(0, |i: int| CompressedOp::PutChar)
            =~= seq![CompressedOp::PutChar]);
    } else {
        assert(puts[0] == Op::PutChar);
        assert(!crate::compress::accumulating(Op::PutChar));
        assert(puts.drop_first() =~= Seq::new((k - 1) as nat, |i: int| Op::PutChar));
        lemma_comp_rec_puts((k - 1) as nat, 1);
        assert(seq![merged(Op::PutChar, c)] + (seq![CompressedOp::PutChar] + Seq::new(
            (k - 1) as nat,
            |i: int| CompressedOp::PutChar,
        )) =~= seq![CompressedOp::PutChar] + Seq::new(k, |i: int| CompressedOp::PutChar));
    }
}

} // verus!
