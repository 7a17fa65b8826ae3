//! The Newick text form: a recursive-descent parser from characters to
//! recursive trees, and the six-decimal serializer, each pinned to a
//! specification-level grammar.

use vstd::prelude::*;

use crate::tree::{Node, node_binary};

verus! {

/// Marker for the Newick grammar; the free functions of this module do the
/// reading and writing.
pub struct NewickParser;

/// The ghost shape of a parsed tree: the name as bare characters, so that
/// text-level laws can speak of trees without string allocation.
pub ghost struct NodeV {
    pub name: Seq<char>,
    pub left: Option<Box<NodeV>>,
    pub right: Option<Box<NodeV>>,
    pub depth: Option<u64>,
    pub length: u64,
}

/// The ghost shape of a recursive tree.
pub open spec fn view_node(t: Node) -> NodeV
    decreases t,
{
    NodeV {
        name: t.name@,
        depth: t.depth,
        length: t.length,
        left: match t.left_child {
            Some(l) => Some(Box::new(view_node(*l))),
            None => None,
        },
        right: match t.right_child {
            Some(r) => Some(Box::new(view_node(*r))),
            None => None,
        },
    }
}

/// A whitespace character, ignored between trees.
pub open spec fn is_space_char(c: char) -> bool {
    c == ' ' || c == '\t' || c == '\n' || c == '\r'
}

/// A character allowed in a node name: anything but the grammar's own
/// punctuation and whitespace.
pub open spec fn is_name_char(c: char) -> bool {
    c != '(' && c != ')' && c != ',' && c != ':' && c != ';' && !is_space_char(c)
}

/// A decimal digit.
pub open spec fn is_digit(c: char) -> bool {
    '0' <= c && c <= '9'
}

/// A character that can occur in a length token; a token that is not a plain
/// decimal number still ends the field but decodes to zero.
pub open spec fn is_length_char(c: char) -> bool {
    is_digit(c) || c == '.' || c == 'e' || c == 'E' || c == '+' || c == '-'
}

/// The numeric value of a digit character.
pub open spec fn digit_val(c: char) -> int {
    c as int - '0' as int
}

/// The digit character of a value below ten.
pub open spec fn digit_char(d: int) -> char {
    ((48 + d) as u8) as char
}

/// Where the run of name characters starting at `i` ends.
pub open spec fn name_end(s: Seq<char>, i: int) -> int
    decreases s.len() - i,
{
    if 0 <= i < s.len() && is_name_char(s[i]) {
        name_end(s, i + 1)
    } else {
        i
    }
}

/// Where the run of length-token characters starting at `i` ends.
pub open spec fn length_end(s: Seq<char>, i: int) -> int
    decreases s.len() - i,
{
    if 0 <= i < s.len() && is_length_char(s[i]) {
        length_end(s, i + 1)
    } else {
        i
    }
}

/// Where the run of whitespace starting at `i` ends.
pub open spec fn space_end(s: Seq<char>, i: int) -> int
    decreases s.len() - i,
{
    if 0 <= i < s.len() && is_space_char(s[i]) {
        space_end(s, i + 1)
    } else {
        i
    }
}

/// All characters are digits.
pub open spec fn all_digits(t: Seq<char>) -> bool {
    forall|k: int| 0 <= k < t.len() ==> is_digit(#[trigger] t[k])
}

/// The value of a digit string, most significant first.
pub open spec fn digits_val(t: Seq<char>) -> int
    decreases t.len(),
{
    if t.len() == 0 {
        0
    } else {
        digits_val(t.drop_last()) * 10 + digit_val(t.last())
    }
}

/// Ten to the `k`.
pub open spec fn pow10(k: nat) -> int
    decreases k,
{
    if k == 0 {
        1
    } else {
        10 * pow10((k - 1) as nat)
    }
}

/// The first position of a dot in `t`, or its length if there is none.
pub open spec fn dot_pos(t: Seq<char>, i: int) -> int
    decreases t.len() - i,
{
    if 0 <= i < t.len() {
        if t[i] == '.' {
            i
        } else {
            dot_pos(t, i + 1)
        }
    } else {
        i
    }
}

/// The fixed-point value of a length token: integer digits, an optional dot,
/// and fraction digits read to six places.  A token that is not of that
/// shape, or whose value leaves the machine range, reads as zero.
pub open spec fn decode_length(t: Seq<char>) -> u64 {
    let dp = dot_pos(t, 0);
    let ip = t.subrange(0, dp);
    let fp = if dp < t.len() {
        t.subrange(dp + 1, t.len() as int)
    } else {
        seq![]
    };
    let fk = if fp.len() < 6 {
        fp.len() as int
    } else {
        6
    };
    let v = digits_val(ip) * 1_000_000 + digits_val(fp.subrange(0, fk)) * pow10((6 - fk) as nat);
    if all_digits(ip) && all_digits(fp) && ip.len() + fp.len() > 0 && v <= u64::MAX {
        v as u64
    } else {
        0
    }
}

/// One subtree read from position `i`: a parenthesised pair of subtrees or a
/// leaf, then a name, then an optional `:`-prefixed length.  Gives the tree
/// and the position just past it, or nothing if the text does not fit the
/// grammar.
pub open spec fn spec_parse_subtree(s: Seq<char>, i: int) -> Option<(NodeV, int)>
    decreases s.len() - i, 1int,
{
    if !(0 <= i < s.len()) {
        None
    } else if s[i] == '(' {
        match spec_parse_subtree(s, i + 1) {
            None => None,
            Some((lt, p1)) => {
                if !(i + 1 <= p1 < s.len()) || s[p1] != ',' {
                    None
                } else {
                    match spec_parse_subtree(s, p1 + 1) {
                        None => None,
                        Some((rt, p2)) => {
                            if !(p1 + 1 <= p2 < s.len()) || s[p2] != ')' {
                                None
                            } else {
                                match spec_parse_tail(s, p2 + 1) {
                                    None => None,
                                    Some((nm, ln, p3)) => Some(
                                        (
                                            NodeV {
                                                name: nm,
                                                left: Some(Box::new(lt)),
                                                right: Some(Box::new(rt)),
                                                depth: None,
                                                length: ln,
                                            },
                                            p3,
                                        ),
                                    ),
                                }
                            }
                        },
                    }
                }
            },
        }
    } else {
        match spec_parse_tail(s, i) {
            None => None,
            Some((nm, ln, p3)) => {
                if p3 <= i {
                    // an empty leaf would not move the cursor; the grammar
                    // has no such subtree
                    None
                } else {
                    Some(
                        (NodeV { name: nm, left: None, right: None, depth: None, length: ln }, p3),
                    )
                }
            },
        }
    }
}

/// The name and optional `:`-length that end every subtree, and the position
/// just past them.
pub open spec fn spec_parse_tail(s: Seq<char>, i: int) -> Option<(Seq<char>, u64, int)>
    decreases s.len() - i, 0int,
{
    if !(0 <= i <= s.len()) {
        None
    } else {
        let ne = name_end(s, i);
        let nm = s.subrange(i, ne);
        if ne < s.len() && s[ne] == ':' {
            let le = length_end(s, ne + 1);
            Some((nm, decode_length(s.subrange(ne + 1, le)), le))
        } else {
            Some((nm, 0u64, ne))
        }
    }
}

/// A whole file: whitespace-separated `;`-terminated subtrees, one or more.
pub open spec fn spec_parse_file(s: Seq<char>, i: int) -> Option<Seq<NodeV>>
    decreases s.len() - i,
{
    if !(0 <= i <= s.len()) {
        None
    } else {
        let j = space_end(s, i);
        if !(i <= j <= s.len()) {
            None
        } else if j >= s.len() {
            Some(seq![])
        } else {
            match spec_parse_subtree(s, j) {
                None => None,
                Some((t, p)) => {
                    if !(j < p < s.len()) || s[p] != ';' {
                        None
                    } else {
                        match spec_parse_file(s, p + 1) {
                            None => None,
                            Some(rest) => Some(seq![t] + rest),
                        }
                    }
                },
            }
        }
    }
}

/// The decimal digits of `v`, most significant first.
pub open spec fn dec_digits(v: nat) -> Seq<char>
    decreases v,
{
    if v < 10 {
        seq![digit_char(v as int)]
    } else {
        dec_digits(v / 10) + seq![digit_char((v % 10) as int)]
    }
}

/// Exactly `k` digits of `m`, zero-padded on the left.
pub open spec fn frac_digits(m: nat, k: nat) -> Seq<char>
    decreases k,
{
    if k == 0 {
        seq![]
    } else {
        frac_digits(m / 10, (k - 1) as nat) + seq![digit_char((m % 10) as int)]
    }
}

/// A fixed-point time as Newick writes it: the whole part, a dot, and six
/// fraction digits.
pub open spec fn spec_format_time(n: u64) -> Seq<char> {
    dec_digits((n / 1_000_000) as nat) + seq!['.'] + frac_digits((n % 1_000_000) as nat, 6)
}

/// A subtree as Newick writes it: `(left,right)` for internal nodes, then
/// the name, a colon and the length.
pub open spec fn spec_emit(v: NodeV) -> Seq<char>
    decreases v,
{
    (match (v.left, v.right) {
        (Some(l), Some(r)) => seq!['('] + spec_emit(*l) + seq![','] + spec_emit(*r) + seq![')'],
        _ => seq![],
    }) + v.name + seq![':'] + spec_format_time(v.length)
}

/// Builds a string from collected characters.  Relies on `String`'s
/// `FromIterator` over `char`: the string holds exactly those characters.
#[verifier::external_body]
fn chars_to_string(v: &Vec<char>) -> (r: String)
    ensures
        r@ == v@,
{
    v.iter().collect()
}

/// Character class tests, one per grammar class.
fn name_char(c: char) -> (r: bool)
    ensures
        r == is_name_char(c),
{
    c != '(' && c != ')' && c != ',' && c != ':' && c != ';' && c != ' ' && c != '\t' && c != '\n'
        && c != '\r'
}

fn digit_char_test(c: char) -> (r: bool)
    ensures
        r == is_digit(c),
{
    '0' <= c && c <= '9'
}

fn length_char(c: char) -> (r: bool)
    ensures
        r == is_length_char(c),
{
    digit_char_test(c) || c == '.' || c == 'e' || c == 'E' || c == '+' || c == '-'
}

fn space_char(c: char) -> (r: bool)
    ensures
        r == is_space_char(c),
{
    c == ' ' || c == '\t' || c == '\n' || c == '\r'
}

/// Reads the run of name characters starting at `i`.
fn scan_name(s: &Vec<char>, i: usize) -> (r: (String, usize))
    requires
        i <= s@.len(),
    ensures
        r.1 as int == name_end(s@, i as int),
        i <= r.1 <= s@.len(),
        r.0@ == s@.subrange(i as int, r.1 as int),
{
    let mut j = i;
    let mut buf: Vec<char> = Vec::new();
    while j < s.len() && name_char(s[j])
        invariant
            i <= j <= s@.len(),
            buf@ == s@.subrange(i as int, j as int),
            name_end(s@, i as int) == name_end(s@, j as int),
        decreases s@.len() - j,
    {
        buf.push(s[j]);
        proof {
            assert(buf@ =~= s@.subrange(i as int, j + 1));
        }
        j = j + 1;
    }
    (chars_to_string(&buf), j)
}

/// Finds the end of the run of length-token characters starting at `i`.
fn scan_length(s: &Vec<char>, i: usize) -> (r: usize)
    requires
        i <= s@.len(),
    ensures
        r as int == length_end(s@, i as int),
        i <= r <= s@.len(),
{
    let mut j = i;
    while j < s.len() && length_char(s[j])
        invariant
            i <= j <= s@.len(),
            length_end(s@, i as int) == length_end(s@, j as int),
        decreases s@.len() - j,
    {
        j = j + 1;
    }
    j
}

/// Finds the end of the run of whitespace starting at `i`.
fn skip_spaces(s: &Vec<char>, i: usize) -> (r: usize)
    requires
        i <= s@.len(),
    ensures
        r as int == space_end(s@, i as int),
        i <= r <= s@.len(),
{
    let mut j = i;
    while j < s.len() && space_char(s[j])
        invariant
            i <= j <= s@.len(),
            space_end(s@, i as int) == space_end(s@, j as int),
        decreases s@.len() - j,
    {
        j = j + 1;
    }
    j
}

/// A digit string's value is not negative.
proof fn lemma_digits_val_nonneg(t: Seq<char>)
    requires
        all_digits(t),
    ensures
        digits_val(t) >= 0,
    decreases t.len(),
{
    if t.len() > 0 {
        assert(all_digits(t.drop_last())) by {
            assert(forall|k: int| 0 <= k < t.len() - 1 ==> t.drop_last()[k] == #[trigger] t[k]);
        }
        lemma_digits_val_nonneg(t.drop_last());
    }
}

/// Reads the fixed-point value of the length token `s[from..to]`.
fn decode_token(s: &Vec<char>, from: usize, to: usize) -> (r: u64)
    requires
        from <= to <= s@.len(),
    ensures
        r == decode_length(s@.subrange(from as int, to as int)),
{
    let ghost t = s@.subrange(from as int, to as int);
    // the first dot, if any
    let mut dp = from;
    while dp < to && s[dp] != '.'
        invariant
            from <= dp <= to <= s@.len(),
            t == s@.subrange(from as int, to as int),
            dot_pos(t, 0) == dot_pos(t, dp - from),
        decreases to - dp,
    {
        dp = dp + 1;
    }
    proof {
        assert(dot_pos(t, 0) == dp - from);
    }
    let ghost ip = t.subrange(0, dp - from);
    let ghost fp = if dp < to {
        t.subrange(dp - from + 1, t.len() as int)
    } else {
        Seq::<char>::empty()
    };
    // the whole part, capped just above the machine range
    let mut acc: u128 = 0;
    let mut digits_ok = true;
    let mut k = from;
    while k < dp
        invariant
            from <= k <= dp <= to <= s@.len(),
            t == s@.subrange(from as int, to as int),
            ip == t.subrange(0, dp - from),
            dot_pos(t, 0) == dp - from,
            acc <= 0x1_0000_0000_0000_0000,
            digits_ok == all_digits(t.subrange(0, k - from)),
            digits_ok ==> (acc <= u64::MAX ==> acc == digits_val(t.subrange(0, k - from))),
            digits_ok ==> (acc > u64::MAX ==> digits_val(t.subrange(0, k - from)) > u64::MAX),
        decreases dp - k,
    {
        let c = s[k];
        let ghost pre = t.subrange(0, k - from);
        let ghost pre1 = t.subrange(0, k - from + 1);
        proof {
            assert(pre1.drop_last() =~= pre);
            assert(pre1.last() == t[k - from]);
            assert(t[k - from] == c);
            assert forall|q: int| 0 <= q < pre.len() implies pre1[q] == #[trigger] pre[q] by {}
            assert(all_digits(pre1) == (all_digits(pre) && is_digit(c))) by {
                if all_digits(pre) && is_digit(c) {
                    assert forall|q: int| 0 <= q < pre1.len() implies is_digit(
                        #[trigger] pre1[q],
                    ) by {
                        if q < pre.len() {
                            assert(pre1[q] == pre[q]);
                        }
                    }
                }
                if all_digits(pre1) {
                    assert forall|q: int| 0 <= q < pre.len() implies is_digit(
                        #[trigger] pre[q],
                    ) by {
                        assert(pre1[q] == pre[q]);
                    }
                    assert(is_digit(pre1.last()));
                }
            }
        }
        if digit_char_test(c) {
            proof {
                assert('0' <= c && c <= '9');
                assert(c as u32 >= 48 && c as u32 <= 57);
                assert(digit_val(c) == c as u32 - 48);
            }
            let d = (c as u32 - 48) as u128;
            let ghost acc0 = acc;
            let grown: u128 = acc * 10 + d;
            if grown > 0xFFFF_FFFF_FFFF_FFFF {
                acc = 0x1_0000_0000_0000_0000;
            } else {
                acc = grown;
            }
            proof {
                if digits_ok {
                    assert(digits_val(pre1) == digits_val(pre) * 10 + digit_val(c));
                    if acc0 <= u64::MAX {
                        assert(acc0 == digits_val(pre));
                        assert(grown == digits_val(pre1));
                        if grown > u64::MAX {
                            assert(digits_val(pre1) > u64::MAX);
                        } else {
                            assert(acc == digits_val(pre1));
                        }
                    } else {
                        assert(digits_val(pre) > u64::MAX);
                        assert(digits_val(pre1) > u64::MAX);
                        assert(acc > u64::MAX);
                    }
                }
            }
        } else {
            digits_ok = false;
        }
        k = k + 1;
    }
    proof {
        assert(t.subrange(0, dp - from) =~= ip);
    }
    // the fraction, read to six places
    let mut fv: u64 = 0;
    let mut taken: usize = 0;
    let mut k2 = if dp < to {
        dp + 1
    } else {
        to
    };
    let ghost fstart = k2 as int;
    while k2 < to
        invariant
            from <= dp <= to <= s@.len(),
            t == s@.subrange(from as int, to as int),
            ip == t.subrange(0, dp - from),
            fp == (if dp < to {
                t.subrange(dp - from + 1, t.len() as int)
            } else {
                Seq::<char>::empty()
            }),
            fstart == (if dp < to {
                dp + 1
            } else {
                to as int
            }),
            fstart <= k2 <= to,
            fp.len() == to - fstart,
            taken <= 6,
            taken as int <= k2 - fstart,
            digits_ok ==> taken as int == (if k2 - fstart < 6 {
                k2 - fstart
            } else {
                6int
            }),
            digits_ok == (all_digits(ip) && all_digits(fp.subrange(0, k2 - fstart))),
            fv < pow10(taken as nat),
            digits_ok ==> fv == digits_val(fp.subrange(0, taken as int)),
        decreases to - k2,
    {
        let c = s[k2];
        let ghost pre = fp.subrange(0, k2 - fstart);
        let ghost pre1 = fp.subrange(0, k2 - fstart + 1);
        proof {
            assert(pre1.drop_last() =~= pre);
            assert(fp[k2 - fstart] == t[k2 - from]);
            assert(pre1.last() == c);
            assert forall|q: int| 0 <= q < pre.len() implies pre1[q] == #[trigger] pre[q] by {}
            assert(all_digits(pre1) == (all_digits(pre) && is_digit(c))) by {
                if all_digits(pre) && is_digit(c) {
                    assert forall|q: int| 0 <= q < pre1.len() implies is_digit(
                        #[trigger] pre1[q],
                    ) by {
                        if q < pre.len() {
                            assert(pre1[q] == pre[q]);
                        }
                    }
                }
                if all_digits(pre1) {
                    assert forall|q: int| 0 <= q < pre.len() implies is_digit(
                        #[trigger] pre[q],
                    ) by {
                        assert(pre1[q] == pre[q]);
                    }
                    assert(is_digit(pre1.last()));
                }
            }
            if taken < 6 {
                assert(fp.subrange(0, taken as int + 1).drop_last() =~= fp.subrange(
                    0,
                    taken as int,
                ));
                assert(fp.subrange(0, taken as int + 1).last() == fp[taken as int]);
            }
        }
        if digit_char_test(c) {
            proof {
                assert(c as u32 >= 48 && c as u32 <= 57);
                assert(digit_val(c) == c as u32 - 48);
                assert(pow10((taken + 1) as nat) == 10 * pow10(taken as nat));
                assert(pow10(6nat) == 10 * pow10(5nat));
                assert(pow10(5nat) == 10 * pow10(4nat));
                assert(pow10(4nat) == 10 * pow10(3nat));
                assert(pow10(3nat) == 10 * pow10(2nat));
                assert(pow10(2nat) == 10 * pow10(1nat));
                assert(pow10(1nat) == 10 * pow10(0nat));
                assert(pow10(0nat) == 1);
            }
            if taken < 6 {
                proof {
                    if digits_ok {
                        assert(taken as int == k2 - fstart);
                        assert(fp.subrange(0, taken as int) =~= pre);
                        assert(fp.subrange(0, taken as int + 1) =~= pre1);
                        assert(digits_val(pre1) == digits_val(pre) * 10 + digit_val(c));
                    }
                }
                fv = fv * 10 + (c as u32 - 48) as u64;
                taken = taken + 1;
            }
        } else {
            digits_ok = false;
        }
        k2 = k2 + 1;
    }
    proof {
        assert(fp.subrange(0, fp.len() as int) =~= fp);
    }
    let fk = taken;
    // scale the fraction out to six digits
    let scale: u64 = if fk == 0 {
        1_000_000
    } else if fk == 1 {
        100_000
    } else if fk == 2 {
        10_000
    } else if fk == 3 {
        1_000
    } else if fk == 4 {
        100
    } else if fk == 5 {
        10
    } else {
        1
    };
    proof {
        assert(pow10(0) == 1);
        assert(pow10(1) == 10);
        assert(pow10(2) == 100);
        assert(pow10(3) == 1_000);
        assert(pow10(4) == 10_000);
        assert(pow10(5) == 100_000);
        assert(pow10(6) == 1_000_000);
    }
    proof {
        // each possible digit count pins a concrete power of ten
        assert(fv <= 999_999) by {
            if taken == 0 {
            } else if taken == 1 {
            } else if taken == 2 {
            } else if taken == 3 {
            } else if taken == 4 {
            } else if taken == 5 {
            } else {
            }
        }
    }
    if !digits_ok {
        return 0;
    }
    if acc > 0xFFFF_FFFF_FFFF_FFFF {
        proof {
            lemma_digits_val_nonneg(fp.subrange(0, fk as int));
        }
        return 0;
    }
    proof {
        assert(acc <= 0xFFFF_FFFF_FFFF_FFFFu128);
        assert(fv <= 999_999);
        assert(scale <= 1_000_000);
        assert((fv as int) * (scale as int) <= 999_999_000_000int) by (nonlinear_arith)
            requires
                fv <= 999_999,
                scale <= 1_000_000,
        ;
        assert((fv as int) * (scale as int) >= 0) by (nonlinear_arith)
            requires
                fv >= 0,
                scale >= 0,
        ;
    }
    let total: u128 = acc * 1_000_000 + (fv as u128) * (scale as u128);
    proof {
        lemma_digits_val_nonneg(ip);
        lemma_digits_val_nonneg(fp.subrange(0, fk as int));
    }
    if total > 0xFFFF_FFFF_FFFF_FFFF {
        return 0;
    }
    total as u64
}

/// Reads the name and the optional `:`-length that end a subtree.
fn parse_tail(s: &Vec<char>, i: usize) -> (r: (String, u64, usize))
    requires
        i <= s@.len(),
    ensures
        spec_parse_tail(s@, i as int) matches Some(pr) && pr.0 == r.0@ && pr.1 == r.1 && pr.2
            == r.2 as int,
        i <= r.2 <= s@.len(),
{
    let (nm, ne) = scan_name(s, i);
    if ne < s.len() {
        let c = s[ne];
        if c == ':' {
            let le = scan_length(s, ne + 1);
            let v = decode_token(s, ne + 1, le);
            return (nm, v, le);
        }
    }
    (nm, 0, ne)
}

/// Reads one subtree from position `i`: either `(left,right)` and a tail, or
/// a bare leaf tail.  Gives the tree and the position just past it, or
/// nothing when the text does not fit the grammar; every tree read is
/// binary.
pub fn handle_pair(s: &Vec<char>, i: usize) -> (r: Option<(Node, usize)>)
    requires
        i <= s@.len(),
    ensures
        (match r {
            Some((t, p)) => spec_parse_subtree(s@, i as int) matches Some(pr) && pr.0 == view_node(
                t,
            ) && pr.1 == p as int && i < p <= s@.len() && node_binary(t),
            None => spec_parse_subtree(s@, i as int) is None,
        }),
    decreases s@.len() - i,
{
    if i >= s.len() {
        return None;
    }
    if s[i] == '(' {
        let left = handle_pair(s, i + 1);
        match left {
            None => None,
            Some((lt, p1)) => {
                if !(p1 < s.len()) {
                    return None;
                }
                if s[p1] != ',' {
                    return None;
                }
                let right = handle_pair(s, p1 + 1);
                match right {
                    None => None,
                    Some((rt, p2)) => {
                        if !(p2 < s.len()) {
                            return None;
                        }
                        if s[p2] != ')' {
                            return None;
                        }
                        let (nm, ln, p3) = parse_tail(s, p2 + 1);
                        Some(
                            (
                                Node {
                                    name: nm,
                                    left_child: Some(Box::new(lt)),
                                    right_child: Some(Box::new(rt)),
                                    depth: None,
                                    length: ln,
                                },
                                p3,
                            ),
                        )
                    },
                }
            },
        }
    } else {
        let (nm, ln, p3) = parse_tail(s, i);
        if p3 == i {
            // an empty leaf would not move the cursor; the grammar has no
            // such subtree
            return None;
        }
        Some((Node { name: nm, left_child: None, right_child: None, depth: None, length: ln }, p3))
    }
}

/// Reads a whole Newick text: one or more `;`-terminated trees with
/// whitespace in between.  `None` reports a malformed text.
pub fn newick_to_tree(s: &Vec<char>) -> (r: Option<Vec<Node>>)
    ensures
        (match r {
            Some(ts) => spec_parse_file(s@, 0) matches Some(vs) && vs.len() == ts@.len() && (
            forall|k: int|
                0 <= k < ts@.len() ==> view_node(#[trigger] ts@[k]) == vs[k] && node_binary(
                    ts@[k],
                )),
            None => spec_parse_file(s@, 0) is None,
        }),
{
    let mut out: Vec<Node> = Vec::new();
    let mut i: usize = 0;
    loop
        invariant
            i <= s@.len(),
            (match spec_parse_file(s@, 0) {
                Some(vs) => spec_parse_file(s@, i as int) matches Some(rest) && vs =~= out@.map(
                    |k: int, t: Node| view_node(t),
                ) + rest && (forall|k: int|
                    0 <= k < out@.len() ==> node_binary(#[trigger] out@[k])),
                None => spec_parse_file(s@, i as int) is None,
            }),
        decreases s@.len() - i,
    {
        let j = skip_spaces(s, i);
        if j >= s.len() {
            proof {
                assert(spec_parse_file(s@, i as int) == Some(Seq::<NodeV>::empty()));
                assert(out@.map(|k: int, t: Node| view_node(t)) + Seq::<NodeV>::empty() =~= out@.map(
                    |k: int, t: Node| view_node(t),
                ));
            }
            return Some(out);
        }
        let sub = handle_pair(s, j);
        match sub {
            None => {
                return None;
            },
            Some((t, p)) => {
                if !(p < s.len()) {
                    return None;
                }
                if s[p] != ';' {
                    return None;
                }
                let ghost before = out@;
                out.push(t);
                proof {
                    assert(out@.map(|k: int, t2: Node| view_node(t2)) =~= before.map(
                        |k: int, t2: Node| view_node(t2),
                    ) + seq![view_node(t)]);
                }
                i = p + 1;
            },
        }
    }
}

/// Splits a string into its characters.  Relies on `str::chars` collected
/// into a vector: the characters of the string, in order.
#[verifier::external_body]
pub fn string_to_chars(s: &str) -> (r: Vec<char>)
    ensures
        r@ == s@,
{
    s.chars().collect()
}

/// Appends the decimal digits of `n`.
fn push_dec(v: &mut Vec<char>, n: u64)
    ensures
        final(v)@ == old(v)@ + dec_digits(n as nat),
    decreases n,
{
    if n < 10 {
        let c = (48 + n as u8) as char;
        v.push(c);
        proof {
            assert(final(v)@ =~= old(v)@ + dec_digits(n as nat));
        }
    } else {
        push_dec(v, n / 10);
        let c = (48 + (n % 10) as u8) as char;
        v.push(c);
        proof {
            assert(final(v)@ =~= old(v)@ + dec_digits(n as nat));
        }
    }
}

/// Appends exactly `k` digits of `m`, zero-padded on the left.
fn push_frac(v: &mut Vec<char>, m: u64, k: u8)
    ensures
        final(v)@ == old(v)@ + frac_digits(m as nat, k as nat),
    decreases k,
{
    if k == 0 {
        proof {
            assert(final(v)@ =~= old(v)@ + frac_digits(m as nat, 0));
        }
    } else {
        push_frac(v, m / 10, k - 1);
        let c = (48 + (m % 10) as u8) as char;
        v.push(c);
        proof {
            assert(final(v)@ =~= old(v)@ + frac_digits(m as nat, k as nat));
        }
    }
}

/// Appends a fixed-point time: whole part, dot, six fraction digits.
fn push_time(v: &mut Vec<char>, n: u64)
    ensures
        final(v)@ == old(v)@ + spec_format_time(n),
{
    push_dec(v, n / 1_000_000);
    v.push('.');
    push_frac(v, n % 1_000_000, 6);
    proof {
        assert(final(v)@ =~= old(v)@ + spec_format_time(n));
    }
}

/// Appends one subtree in Newick form.
fn emit_node(v: &mut Vec<char>, node: &Node)
    ensures
        final(v)@ == old(v)@ + spec_emit(view_node(*node)),
    decreases *node,
{
    match (&node.left_child, &node.right_child) {
        (Some(l), Some(r)) => {
            v.push('(');
            emit_node(v, l);
            v.push(',');
            emit_node(v, r);
            v.push(')');
        },
        _ => {},
    }
    let name_chars = string_to_chars(node.name.as_str());
    let mut k: usize = 0;
    let ghost mark = v@;
    while k < name_chars.len()
        invariant
            k <= name_chars@.len(),
            name_chars@ == node.name@,
            v@ == mark + name_chars@.subrange(0, k as int),
        decreases name_chars@.len() - k,
    {
        v.push(name_chars[k]);
        proof {
            assert(v@ =~= mark + name_chars@.subrange(0, k + 1));
        }
        k = k + 1;
    }
    proof {
        assert(name_chars@.subrange(0, name_chars@.len() as int) =~= name_chars@);
    }
    v.push(':');
    push_time(v, node.length);
    proof {
        assert(final(v)@ =~= old(v)@ + spec_emit(view_node(*node)));
    }
}

/// A plain index as text.
pub fn format_index(n: u64) -> (r: String)
    ensures
        r@ == dec_digits(n as nat),
{
    let mut v: Vec<char> = Vec::new();
    push_dec(&mut v, n);
    chars_to_string(&v)
}

/// A fixed-point time as text, to six decimal places.
pub fn format_time(n: u64) -> (r: String)
    ensures
        r@ == spec_format_time(n),
{
    let mut v: Vec<char> = Vec::new();
    push_time(&mut v, n);
    chars_to_string(&v)
}

/// One subtree in Newick form: `(left,right)name:length`, the length to six
/// decimal places; a leaf is just `name:length`.
pub fn node_to_newick(node: &Node) -> (r: String)
    ensures
        r@ == spec_emit(view_node(*node)),
{
    let mut v: Vec<char> = Vec::new();
    emit_node(&mut v, node);
    chars_to_string(&v)
}

impl Node {
    /// This subtree in Newick form.
    pub fn to_newick(&self) -> (r: String)
        ensures
            r@ == spec_emit(view_node(*self)),
    {
        node_to_newick(self)
    }
}

/// The tree shape with every depth forgotten, as parsing returns it.
pub open spec fn vstrip(v: NodeV) -> NodeV
    decreases v,
{
    NodeV {
        name: v.name,
        length: v.length,
        depth: None,
        left: match v.left {
            Some(l) => Some(Box::new(vstrip(*l))),
            None => None,
        },
        right: match v.right {
            Some(r) => Some(Box::new(vstrip(*r))),
            None => None,
        },
    }
}

/// A tree the grammar can carry: binary, with names made of name
/// characters.
pub open spec fn valid_nodev(v: NodeV) -> bool
    decreases v,
{
    &&& (forall|k: int| 0 <= k < v.name.len() ==> is_name_char(#[trigger] v.name[k]))
    &&& (v.left is Some <==> v.right is Some)
    &&& (v.left matches Some(l) ==> valid_nodev(*l))
    &&& (v.right matches Some(r) ==> valid_nodev(*r))
}

/// Decimal digits are digit characters, not dots, and read back to their
/// value.
pub proof fn lemma_dec_digits(v: nat)
    ensures
        dec_digits(v).len() >= 1,
        all_digits(dec_digits(v)),
        digits_val(dec_digits(v)) == v,
        forall|k: int| 0 <= k < dec_digits(v).len() ==> #[trigger] dec_digits(v)[k] != '.',
    decreases v,
{
    if v < 10 {
        assert(dec_digits(v) =~= seq![digit_char(v as int)]);
        assert(is_digit(digit_char(v as int)));
        assert(digit_char(v as int) != '.');
        assert(digit_val(digit_char(v as int)) == v);
        let one = seq![digit_char(v as int)];
        assert(one.drop_last() =~= Seq::<char>::empty());
        assert(digits_val(Seq::<char>::empty()) == 0);
        assert(digits_val(one) == digits_val(one.drop_last()) * 10 + digit_val(one.last()));
        assert(digits_val(dec_digits(v)) == v);
    } else {
        lemma_dec_digits(v / 10);
        let pre = dec_digits(v / 10);
        let whole = dec_digits(v);
        assert(whole =~= pre + seq![digit_char((v % 10) as int)]);
        assert(whole.drop_last() =~= pre);
        assert(is_digit(digit_char((v % 10) as int)));
        assert(digit_char((v % 10) as int) != '.');
        assert(digit_val(digit_char((v % 10) as int)) == v % 10);
        assert forall|k: int| 0 <= k < whole.len() implies is_digit(#[trigger] whole[k])
            && whole[k] != '.' by {
            if k < pre.len() {
                assert(whole[k] == pre[k]);
            }
        }
        assert(digits_val(whole) == digits_val(pre) * 10 + digit_val(whole.last()));
        vstd::arithmetic::div_mod::lemma_fundamental_div_mod(v as int, 10);
    }
}

/// Zero-padded fraction digits are digit characters reading back to their
/// value.
pub proof fn lemma_frac_digits(m: nat, k: nat)
    requires
        m < pow10(k),
    ensures
        frac_digits(m, k).len() == k,
        all_digits(frac_digits(m, k)),
        digits_val(frac_digits(m, k)) == m,
        forall|x: int| 0 <= x < k ==> #[trigger] frac_digits(m, k)[x] != '.',
    decreases k,
{
    if k == 0 {
        assert(frac_digits(m, 0) =~= Seq::<char>::empty());
        assert(digits_val(Seq::<char>::empty()) == 0);
        assert(pow10(0) == 1);
    } else {
        assert(pow10(k) == 10 * pow10((k - 1) as nat));
        assert(m / 10 < pow10((k - 1) as nat)) by {
            if m / 10 >= pow10((k - 1) as nat) {
                vstd::arithmetic::div_mod::lemma_fundamental_div_mod(m as int, 10);
                vstd::arithmetic::div_mod::lemma_mod_bound(m as int, 10);
                assert(10 * (m / 10) >= 10 * pow10((k - 1) as nat)) by (nonlinear_arith)
                    requires
                        m / 10 >= pow10((k - 1) as nat),
                ;
            }
        }
        lemma_frac_digits(m / 10, (k - 1) as nat);
        let pre = frac_digits(m / 10, (k - 1) as nat);
        let whole = frac_digits(m, k);
        assert(whole =~= pre + seq![digit_char((m % 10) as int)]);
        assert(whole.drop_last() =~= pre);
        vstd::arithmetic::div_mod::lemma_fundamental_div_mod(m as int, 10);
        assert(is_digit(digit_char((m % 10) as int)));
        assert(digit_val(digit_char((m % 10) as int)) == m % 10);
        assert forall|x: int| 0 <= x < whole.len() implies is_digit(#[trigger] whole[x])
            && whole[x] != '.' by {
            if x < pre.len() {
                assert(whole[x] == pre[x]);
            }
        }
        assert(digits_val(whole) == digits_val(pre) * 10 + digit_val(whole.last()));
        vstd::arithmetic::div_mod::lemma_fundamental_div_mod(m as int, 10);
    }
}

/// A formatted time reads back to the same fixed-point value.
pub proof fn lemma_decode_of_format(n: u64)
    ensures
        decode_length(spec_format_time(n)) == n,
        forall|x: int| 0 <= x < spec_format_time(n).len() ==> is_length_char(
            #[trigger] spec_format_time(n)[x],
        ),
        spec_format_time(n).len() >= 1,
{
    let ip = dec_digits((n / 1_000_000) as nat);
    let fr = frac_digits((n % 1_000_000) as nat, 6);
    let ft = spec_format_time(n);
    lemma_dec_digits((n / 1_000_000) as nat);
    assert(pow10(6) == 1_000_000) by {
        assert(pow10(0) == 1);
        assert(pow10(1) == 10);
        assert(pow10(2) == 100);
        assert(pow10(3) == 1_000);
        assert(pow10(4) == 10_000);
        assert(pow10(5) == 100_000);
        assert(pow10(6) == 1_000_000);
    }
    lemma_frac_digits((n % 1_000_000) as nat, 6);
    assert(ft =~= ip + seq!['.'] + fr);
    // the dot sits right after the whole part
    lemma_dot_skip(ft, 0, ip.len() as int);
    let dp = dot_pos(ft, 0);
    assert(dp == ip.len());
    assert(ft.subrange(0, dp) =~= ip);
    assert(ft.subrange(dp + 1, ft.len() as int) =~= fr);
    assert(digits_val(fr.subrange(0, 6)) == digits_val(fr)) by {
        assert(fr.subrange(0, 6) =~= fr);
    }
    vstd::arithmetic::div_mod::lemma_fundamental_div_mod(n as int, 1_000_000);
    assert forall|x: int| 0 <= x < ft.len() implies is_length_char(#[trigger] ft[x]) by {
        if x < ip.len() {
            assert(ft[x] == ip[x]);
        } else if x == ip.len() {
            assert(ft[x] == '.');
        } else {
            assert(ft[x] == fr[x - ip.len() - 1]);
        }
    }
}

/// The first dot of a text whose earlier characters are not dots.
proof fn lemma_dot_skip(t: Seq<char>, i: int, p: int)
    requires
        0 <= i <= p <= t.len(),
        forall|x: int| i <= x < p ==> #[trigger] t[x] != '.',
        p == t.len() || t[p] == '.',
    ensures
        dot_pos(t, i) == (if p < t.len() {
            p
        } else {
            t.len() as int
        }),
    decreases p - i,
{
    if i < p {
        lemma_dot_skip(t, i + 1, p);
    }
}

/// Reading an emitted subtree from within a larger text gives back the tree
/// (its depths forgotten) and stops exactly at the subtree's end, provided
/// the next character is one the grammar could follow a subtree with.
#[verifier::rlimit(100)]
#[verifier::spinoff_prover]
pub proof fn lemma_parse_of_emit(v: NodeV, s: Seq<char>, i: int)
    requires
        valid_nodev(v),
        0 <= i,
        i + spec_emit(v).len() <= s.len(),
        s.subrange(i, i + spec_emit(v).len() as int) == spec_emit(v),
        i + spec_emit(v).len() == s.len() || s[i + spec_emit(v).len()] == ',' || s[i
            + spec_emit(v).len()] == ')' || s[i + spec_emit(v).len()] == ';',
    ensures
        spec_parse_subtree(s, i) == Some((vstrip(v), i + spec_emit(v).len() as int)),
    decreases v,
{
    let e = spec_emit(v);
    let ne = e.len() as int;
    let ft = spec_format_time(v.length);
    let nf = ft.len() as int;
    let nn = v.name.len() as int;
    lemma_decode_of_format(v.length);
    assert forall|x: int| 0 <= x < ne implies s[i + x] == #[trigger] e[x] by {
        assert(s.subrange(i, i + ne)[x] == s[i + x]);
    }
    if v.left is None && v.right is None {
        assert(e =~= v.name + seq![':'] + ft);
        assert forall|x: int| 0 <= x < nn implies e[x] == #[trigger] v.name[x] by {}
        assert(e[nn] == ':');
        assert forall|x: int| 0 <= x < nf implies e[nn + 1 + x] == #[trigger] ft[x] by {}
        // the text cannot open a pair here
        if nn > 0 {
            assert(is_name_char(v.name[0]));
            assert(s[i] != '(');
        } else {
            assert(s[i] == ':');
        }
        // the name runs to the colon
        assert forall|x: int| i <= x < i + nn implies is_name_char(#[trigger] s[x]) by {
            assert(s[x] == v.name[x - i]);
        }
        assert(s[i + nn] == ':');
        lemma_name_run(s, i, i + nn);
        assert(s.subrange(i, i + nn) =~= v.name);
        // the colon starts the length token, which runs to the boundary
        assert forall|x: int| i + nn + 1 <= x < i + ne implies is_length_char(
            #[trigger] s[x],
        ) by {
            assert(s[x] == ft[x - (i + nn + 1)]);
        }
        lemma_length_run(s, i + nn + 1, i + ne);
        assert(s.subrange(i + nn + 1, i + ne) =~= ft);
        assert(spec_parse_tail(s, i) == Some((v.name, v.length, i + ne)));
        assert(vstrip(v) == (NodeV {
            name: v.name,
            left: None,
            right: None,
            depth: None,
            length: v.length,
        }));
    } else {
        let l = *v.left->Some_0;
        let r = *v.right->Some_0;
        let el = spec_emit(l);
        let er = spec_emit(r);
        let nl = el.len() as int;
        let nr = er.len() as int;
        assert(e =~= seq!['('] + el + seq![','] + er + seq![')'] + v.name + seq![':'] + ft);
        assert(e[0] == '(');
        assert forall|x: int| 0 <= x < nl implies e[1 + x] == #[trigger] el[x] by {}
        assert(e[1 + nl] == ',');
        assert forall|x: int| 0 <= x < nr implies e[2 + nl + x] == #[trigger] er[x] by {}
        assert(e[2 + nl + nr] == ')');
        assert forall|x: int| 0 <= x < nn implies e[3 + nl + nr + x] == #[trigger] v.name[x] by {}
        assert(e[3 + nl + nr + nn] == ':');
        assert forall|x: int| 0 <= x < nf implies e[4 + nl + nr + nn + x] == #[trigger] ft[x] by {}
        assert(s[i] == '(');
        // the left subtree sits just after the bracket, ending at the comma
        assert(s.subrange(i + 1, i + 1 + nl) =~= el);
        assert(s[i + 1 + nl] == ',');
        lemma_parse_of_emit(l, s, i + 1);
        let p1 = i + 1 + nl;
        // the right subtree follows, ending at the closing bracket
        assert(s.subrange(p1 + 1, p1 + 1 + nr) =~= er);
        assert(s[p1 + 1 + nr] == ')');
        lemma_parse_of_emit(r, s, p1 + 1);
        let p2 = p1 + 1 + nr;
        // then the name and the length, to the boundary
        assert forall|x: int| p2 + 1 <= x < p2 + 1 + nn implies is_name_char(#[trigger] s[x]) by {
            assert(s[x] == v.name[x - (p2 + 1)]);
        }
        lemma_name_run(s, p2 + 1, p2 + 1 + nn);
        assert(s.subrange(p2 + 1, p2 + 1 + nn) =~= v.name);
        assert(s[p2 + 1 + nn] == ':');
        assert forall|x: int| p2 + 2 + nn <= x < i + ne implies is_length_char(
            #[trigger] s[x],
        ) by {
            assert(s[x] == ft[x - (p2 + 2 + nn)]);
        }
        lemma_length_run(s, p2 + 2 + nn, i + ne);
        assert(s.subrange(p2 + 2 + nn, i + ne) =~= ft);
        assert(spec_parse_tail(s, p2 + 1) == Some((v.name, v.length, i + ne)));
        assert(vstrip(v) == (NodeV {
            name: v.name,
            left: Some(Box::new(vstrip(l))),
            right: Some(Box::new(vstrip(r))),
            depth: None,
            length: v.length,
        }));
    }
}

/// Reading a whole emitted tree, terminated by its semicolon, gives back
/// exactly that tree with its depths forgotten: parsing undoes writing.
pub proof fn lemma_parse_emit_identity(v: NodeV)
    requires
        valid_nodev(v),
    ensures
        spec_parse_file(spec_emit(v) + seq![';'], 0) == Some(seq![vstrip(v)]),
{
    let e = spec_emit(v);
    let s = e + seq![';'];
    let ne = e.len() as int;
    lemma_decode_of_format(v.length);
    assert(s.subrange(0, ne) =~= e);
    assert(s[ne] == ';');
    // the first character is a bracket, a name character or a colon — never
    // whitespace
    if v.left is Some {
        assert(e =~= seq!['('] + spec_emit(*v.left->Some_0) + seq![','] + spec_emit(
            *v.right->Some_0,
        ) + seq![')'] + v.name + seq![':'] + spec_format_time(v.length));
        assert(s[0] == '(');
    } else {
        assert(e =~= v.name + seq![':'] + spec_format_time(v.length));
        if v.name.len() > 0 {
            assert(s[0] == v.name[0]);
            assert(is_name_char(v.name[0]));
        } else {
            assert(s[0] == ':');
        }
    }
    assert(!is_space_char(s[0]));
    assert(space_end(s, 0) == 0);
    lemma_parse_of_emit(v, s, 0);
    assert(space_end(s, ne + 1) == ne + 1);
    assert(spec_parse_file(s, ne + 1) == Some(Seq::<NodeV>::empty()));
    assert(seq![vstrip(v)] + Seq::<NodeV>::empty() =~= seq![vstrip(v)]);
}

/// A run of name characters ends exactly at the first other character.
proof fn lemma_name_run(s: Seq<char>, i: int, e: int)
    requires
        0 <= i <= e <= s.len(),
        forall|x: int| i <= x < e ==> is_name_char(#[trigger] s[x]),
        e == s.len() || !is_name_char(s[e]),
    ensures
        name_end(s, i) == e,
    decreases e - i,
{
    if i < e {
        lemma_name_run(s, i + 1, e);
    }
}

/// A run of length-token characters ends exactly at the first other
/// character.
proof fn lemma_length_run(s: Seq<char>, i: int, e: int)
    requires
        0 <= i <= e <= s.len(),
        forall|x: int| i <= x < e ==> is_length_char(#[trigger] s[x]),
        e == s.len() || !is_length_char(s[e]),
    ensures
        length_end(s, i) == e,
    decreases e - i,
{
    if i < e {
        lemma_length_run(s, i + 1, e);
    }
}

} // verus!
