use vstd::prelude::*;
use crate::node::Node;
use crate::node::NodeSerialized;

verus! {

/// A byte that is a decimal digit.
pub open spec fn is_digit(b: u8) -> bool {
    48 <= b <= 57
}

/// The decimal digits of a number, most significant first.
pub open spec fn spec_digits(n: nat) -> Seq<u8>
    decreases n,
{
    if n < 10 {
        seq![(48 + n) as u8]
    } else {
        spec_digits(n / 10).push((48 + n % 10) as u8)
    }
}

/// The rendering of a signed scalar: a minus sign for a negative value,
/// then the decimal digits of the magnitude.
pub open spec fn spec_render_i64(v: i64) -> Seq<u8> {
    if v >= 0 {
        spec_digits(v as nat)
    } else {
        seq![45u8] + spec_digits((0 - v as int) as nat)
    }
}

/// The opening of a leaf record.
pub open spec fn lit_value() -> Seq<u8> {
    seq![123u8, 34u8, 118u8, 97u8, 108u8, 117u8, 101u8, 34u8, 58u8]
}

/// The opening of a decision record.
pub open spec fn lit_threshold() -> Seq<u8> {
    seq![123u8, 34u8, 116u8, 104u8, 114u8, 101u8, 115u8, 104u8, 111u8, 108u8, 100u8, 34u8, 58u8]
}

/// The key of the feature index field.
pub open spec fn lit_feature() -> Seq<u8> {
    seq![
        44u8,
        34u8,
        102u8,
        101u8,
        97u8,
        116u8,
        117u8,
        114u8,
        101u8,
        95u8,
        105u8,
        110u8,
        100u8,
        101u8,
        120u8,
        34u8,
        58u8,
    ]
}

/// The key of the information gain field.
pub open spec fn lit_info() -> Seq<u8> {
    seq![44u8, 34u8, 105u8, 110u8, 102u8, 111u8, 95u8, 103u8, 97u8, 105u8, 110u8, 34u8, 58u8]
}

/// The key of the left child field.
pub open spec fn lit_left() -> Seq<u8> {
    seq![44u8, 34u8, 108u8, 101u8, 102u8, 116u8, 34u8, 58u8]
}

/// The key of the right child field.
pub open spec fn lit_right() -> Seq<u8> {
    seq![44u8, 34u8, 114u8, 105u8, 103u8, 104u8, 116u8, 34u8, 58u8]
}

/// The absent-child marker.
pub open spec fn lit_null() -> Seq<u8> {
    seq![110u8, 117u8, 108u8, 108u8]
}

/// The document a persistence record renders to: one structured record per
/// tree node; a record with a present `value` renders as a leaf, one
/// without as a decision whose children render in place, an absent child as
/// the absent-child marker.
pub open spec fn spec_render_node(ns: NodeSerialized) -> Seq<u8>
    decreases ns,
{
    match ns.value {
        Some(v) => lit_value() + spec_render_i64(v) + seq![125u8],
        None => {
            let left_part = match ns.left {
                Some(l) => spec_render_node(*l),
                None => lit_null(),
            };
            let right_part = match ns.right {
                Some(r) => spec_render_node(*r),
                None => lit_null(),
            };
            lit_threshold() + spec_render_i64(ns.threshold) + lit_feature() + spec_digits(
                ns.feature_idx as nat,
            ) + lit_info() + spec_render_i64(ns.info_gain) + lit_left() + left_part + lit_right()
                + right_part + seq![125u8]
        },
    }
}

/// The pattern stands at position `i` of the document.
pub open spec fn spec_match(s: Seq<u8>, i: int, pat: Seq<u8>) -> bool {
    0 <= i && i + pat.len() <= s.len() && s.subrange(i, i + pat.len()) == pat
}

/// The first position at or after `i` that does not hold a digit.
pub open spec fn spec_digits_end(s: Seq<u8>, i: int) -> int
    decreases s.len() - i
        when 0 <= i <= s.len()
{
    if i >= s.len() || !is_digit(s[i]) {
        i
    } else {
        spec_digits_end(s, i + 1)
    }
}

/// The number the digits at positions `i` up to `j` spell.
pub open spec fn digits_value(s: Seq<u8>, i: int, j: int) -> int
    decreases j - i
        when i <= j
{
    if j <= i {
        0
    } else {
        digits_value(s, i, j - 1) * 10 + (s[j - 1] - 48)
    }
}

/// The unsigned number parsed at position `i`: its digits up to the first
/// non-digit, refused when there is no digit or the value overflows.
pub open spec fn spec_parse_u64(s: Seq<u8>, i: int) -> Option<(u64, int)>
    recommends
        0 <= i <= s.len(),
{
    let e = spec_digits_end(s, i);
    if e == i {
        None
    } else if digits_value(s, i, e) > u64::MAX {
        None
    } else {
        Some((digits_value(s, i, e) as u64, e))
    }
}

/// The signed number parsed at position `i`: an optional minus sign, then
/// digits, refused when the value leaves the signed range.
pub open spec fn spec_parse_i64(s: Seq<u8>, i: int) -> Option<(i64, int)>
    recommends
        0 <= i <= s.len(),
{
    if 0 <= i < s.len() && s[i] == 45 {
        match spec_parse_u64(s, i + 1) {
            None => None,
            Some((m, j)) => if m > 0x8000_0000_0000_0000u64 {
                None
            } else if m == 0x8000_0000_0000_0000u64 {
                Some((i64::MIN, j))
            } else {
                Some(((0 - m as int) as i64, j))
            },
        }
    } else {
        match spec_parse_u64(s, i) {
            None => None,
            Some((m, j)) => if m > i64::MAX as u64 {
                None
            } else {
                Some((m as i64, j))
            },
        }
    }
}

/// The leaf record carrying the given value and nothing else.
pub open spec fn leaf_record(v: i64) -> NodeSerialized {
    NodeSerialized {
        threshold: 0,
        feature_idx: 0,
        info_gain: 0,
        value: Some(v),
        left: None,
        right: None,
    }
}

/// The record parsed at position `i` of a document, given recursion fuel:
/// a leaf record or a decision record with its two child positions, parsed
/// strictly in the shape `spec_render_node` writes.
pub open spec fn spec_parse_node(s: Seq<u8>, i: int, fuel: nat) -> Option<(NodeSerialized, int)>
    decreases fuel, 0int,
{
    if fuel == 0 {
        None
    } else if spec_match(s, i, lit_value()) {
        match spec_parse_i64(s, i + lit_value().len()) {
            None => None,
            Some((v, j)) => if j < s.len() && s[j] == 125 {
                Some((leaf_record(v), j + 1))
            } else {
                None
            },
        }
    } else if spec_match(s, i, lit_threshold()) {
        match spec_parse_i64(s, i + lit_threshold().len()) {
            None => None,
            Some((thr, j1)) => if spec_match(s, j1, lit_feature()) {
                match spec_parse_u64(s, j1 + lit_feature().len()) {
                    None => None,
                    Some((fi, j2)) => if fi <= usize::MAX as u64 && spec_match(s, j2, lit_info()) {
                        match spec_parse_i64(s, j2 + lit_info().len()) {
                            None => None,
                            Some((ig, j3)) => if spec_match(s, j3, lit_left()) {
                                match spec_parse_child(s, j3 + lit_left().len(), (fuel - 1) as nat) {
                                    None => None,
                                    Some((lc, j4)) => if spec_match(s, j4, lit_right()) {
                                        match spec_parse_child(
                                            s,
                                            j4 + lit_right().len(),
                                            (fuel - 1) as nat,
                                        ) {
                                            None => None,
                                            Some((rc, j5)) => if j5 < s.len() && s[j5] == 125 {
                                                Some(
                                                    (
                                                        NodeSerialized {
                                                            threshold: thr,
                                                            feature_idx: fi as usize,
                                                            info_gain: ig,
                                                            value: None,
                                                            left: lc,
                                                            right: rc,
                                                        },
                                                        j5 + 1,
                                                    ),
                                                )
                                            } else {
                                                None
                                            },
                                        }
                                    } else {
                                        None
                                    },
                                }
                            } else {
                                None
                            },
                        }
                    } else {
                        None
                    },
                }
            } else {
                None
            },
        }
    } else {
        None
    }
}

/// A child position of a decision record: the absent-child marker or a
/// nested record.
pub open spec fn spec_parse_child(s: Seq<u8>, i: int, fuel: nat) -> Option<
    (Option<Box<NodeSerialized>>, int),
>
    decreases fuel, 1int,
{
    if spec_match(s, i, lit_null()) {
        Some((None, i + lit_null().len()))
    } else {
        match spec_parse_node(s, i, fuel) {
            None => None,
            Some((n, j)) => Some((Some(Box::new(n)), j)),
        }
    }
}

/// The record a whole document parses to: parsing starts at the first byte
/// and must consume every byte.
pub open spec fn spec_parse_document(doc: Seq<u8>) -> Option<NodeSerialized> {
    match spec_parse_node(doc, 0, doc.len()) {
        None => None,
        Some((ns, j)) => if j == doc.len() {
            Some(ns)
        } else {
            None
        },
    }
}

fn lit_value_vec() -> (v: Vec<u8>)
    ensures
        v@ == lit_value(),
{
    let mut v: Vec<u8> = Vec::new();
    v.push(123);
    v.push(34);
    v.push(118);
    v.push(97);
    v.push(108);
    v.push(117);
    v.push(101);
    v.push(34);
    v.push(58);
    proof {
        assert(v@ =~= lit_value());
    }
    v
}

fn lit_threshold_vec() -> (v: Vec<u8>)
    ensures
        v@ == lit_threshold(),
{
    let mut v: Vec<u8> = Vec::new();
    v.push(123);
    v.push(34);
    v.push(116);
    v.push(104);
    v.push(114);
    v.push(101);
    v.push(115);
    v.push(104);
    v.push(111);
    v.push(108);
    v.push(100);
    v.push(34);
    v.push(58);
    proof {
        assert(v@ =~= lit_threshold());
    }
    v
}

fn lit_feature_vec() -> (v: Vec<u8>)
    ensures
        v@ == lit_feature(),
{
    let mut v: Vec<u8> = Vec::new();
    v.push(44);
    v.push(34);
    v.push(102);
    v.push(101);
    v.push(97);
    v.push(116);
    v.push(117);
    v.push(114);
    v.push(101);
    v.push(95);
    v.push(105);
    v.push(110);
    v.push(100);
    v.push(101);
    v.push(120);
    v.push(34);
    v.push(58);
    proof {
        assert(v@ =~= lit_feature());
    }
    v
}

fn lit_info_vec() -> (v: Vec<u8>)
    ensures
        v@ == lit_info(),
{
    let mut v: Vec<u8> = Vec::new();
    v.push(44);
    v.push(34);
    v.push(105);
    v.push(110);
    v.push(102);
    v.push(111);
    v.push(95);
    v.push(103);
    v.push(97);
    v.push(105);
    v.push(110);
    v.push(34);
    v.push(58);
    proof {
        assert(v@ =~= lit_info());
    }
    v
}

fn lit_left_vec() -> (v: Vec<u8>)
    ensures
        v@ == lit_left(),
{
    let mut v: Vec<u8> = Vec::new();
    v.push(44);
    v.push(34);
    v.push(108);
    v.push(101);
    v.push(102);
    v.push(116);
    v.push(34);
    v.push(58);
    proof {
        assert(v@ =~= lit_left());
    }
    v
}

fn lit_right_vec() -> (v: Vec<u8>)
    ensures
        v@ == lit_right(),
{
    let mut v: Vec<u8> = Vec::new();
    v.push(44);
    v.push(34);
    v.push(114);
    v.push(105);
    v.push(103);
    v.push(104);
    v.push(116);
    v.push(34);
    v.push(58);
    proof {
        assert(v@ =~= lit_right());
    }
    v
}

fn lit_null_vec() -> (v: Vec<u8>)
    ensures
        v@ == lit_null(),
{
    let mut v: Vec<u8> = Vec::new();
    v.push(110);
    v.push(117);
    v.push(108);
    v.push(108);
    proof {
        assert(v@ =~= lit_null());
    }
    v
}

/// Whether the pattern stands at position `i` of the document.
fn bytes_at(s: &Vec<u8>, i: usize, pat: &Vec<u8>) -> (b: bool)
    ensures
        b == spec_match(s@, i as int, pat@),
{
    let s_len = s.len();
    let pat_len = pat.len();
    if i > s_len || pat_len > s_len - i {
        return false;
    }
    let mut k: usize = 0;
    while k < pat_len
        invariant
            s_len == s@.len(),
            pat_len == pat@.len(),
            i + pat_len <= s_len,
            k <= pat_len,
            forall|t: int| 0 <= t < k ==> s@[i + t] == pat@[t],
        decreases pat_len - k,
    {
        if s[i + k] != pat[k] {
            proof {
                if spec_match(s@, i as int, pat@) {
                    assert(s@.subrange(i as int, i + pat@.len())[k as int] == pat@[k as int]);
                }
            }
            return false;
        }
        k = k + 1;
    }
    proof {
        assert(s@.subrange(i as int, i + pat@.len()) =~= pat@);
    }
    true
}

/// Append the decimal digits of an unsigned number.
fn render_u64(n: u64, out: &mut Vec<u8>)
    ensures
        final(out)@ == old(out)@ + spec_digits(n as nat),
    decreases n,
{
    if n < 10 {
        out.push(48 + (n as u8));
        proof {
            assert(out@ =~= old(out)@ + spec_digits(n as nat));
        }
    } else {
        render_u64(n / 10, out);
        out.push(48 + ((n % 10) as u8));
        proof {
            assert(out@ =~= old(out)@ + spec_digits(n as nat));
        }
    }
}

/// Append the rendering of a signed scalar.
fn render_i64(v: i64, out: &mut Vec<u8>)
    ensures
        final(out)@ == old(out)@ + spec_render_i64(v),
{
    if v >= 0 {
        render_u64(v as u64, out);
    } else {
        out.push(45);
        let mag: u64 = if v == i64::MIN {
            9223372036854775808u64
        } else {
            (-v) as u64
        };
        render_u64(mag, out);
        proof {
            assert(out@ =~= old(out)@ + spec_render_i64(v));
        }
    }
}

/// The rendering of one persistence record.
fn render_node(ns: &NodeSerialized) -> (out: Vec<u8>)
    ensures
        out@ == spec_render_node(*ns),
    decreases *ns,
{
    match &ns.value {
        Some(v) => {
            let mut out = lit_value_vec();
            render_i64(*v, &mut out);
            out.push(125);
            proof {
                assert(out@ =~= lit_value() + spec_render_i64(*v) + seq![125u8]);
            }
            out
        },
        None => {
            let mut out = lit_threshold_vec();
            render_i64(ns.threshold, &mut out);
            let mut l2 = lit_feature_vec();
            out.append(&mut l2);
            render_u64(ns.feature_idx as u64, &mut out);
            let mut l3 = lit_info_vec();
            out.append(&mut l3);
            render_i64(ns.info_gain, &mut out);
            let mut l4 = lit_left_vec();
            out.append(&mut l4);
            match &ns.left {
                Some(child) => {
                    let mut c = render_node(&**child);
                    out.append(&mut c);
                },
                None => {
                    let mut n = lit_null_vec();
                    out.append(&mut n);
                },
            }
            let mut l5 = lit_right_vec();
            out.append(&mut l5);
            match &ns.right {
                Some(child) => {
                    let mut c = render_node(&**child);
                    out.append(&mut c);
                },
                None => {
                    let mut n = lit_null_vec();
                    out.append(&mut n);
                },
            }
            let ghost pre = out@;
            out.push(125);
            proof {
                assert(out@ =~= pre + seq![125u8]);
            }
            out
        },
    }
}

/// Render a whole persistence record as one document.
pub fn render_document(ns: &NodeSerialized) -> (doc: Vec<u8>)
    ensures
        doc@ == spec_render_node(*ns),
{
    render_node(ns)
}

/// Every position from `i` up to the end of the digits holds a digit, the
/// end is the first position that does not, and it stays in the document.
proof fn lemma_digits_end_bounds(s: Seq<u8>, i: int)
    requires
        0 <= i <= s.len(),
    ensures
        i <= spec_digits_end(s, i) <= s.len(),
        forall|t: int| i <= t < spec_digits_end(s, i) ==> is_digit(s[t]),
        spec_digits_end(s, i) == s.len() || !is_digit(s[spec_digits_end(s, i)]),
    decreases s.len() - i,
{
    if i < s.len() && is_digit(s[i]) {
        lemma_digits_end_bounds(s, i + 1);
    }
}

/// A stretch of digits bounded by a non-digit or the end pins the digits'
/// end down.
proof fn lemma_digits_end_exact(s: Seq<u8>, i: int, k: int)
    requires
        0 <= i <= k <= s.len(),
        forall|t: int| i <= t < k ==> is_digit(s[t]),
        k == s.len() || !is_digit(s[k]),
    ensures
        spec_digits_end(s, i) == k,
    decreases k - i,
{
    if i < k {
        lemma_digits_end_exact(s, i + 1, k);
    }
}

/// The value of a digit stretch is never negative.
proof fn lemma_digits_value_nonneg(s: Seq<u8>, i: int, j: int)
    requires
        0 <= i <= j <= s.len(),
        forall|t: int| #![trigger s[t]] i <= t < j ==> is_digit(s[t]),
    ensures
        0 <= digits_value(s, i, j),
    decreases j - i,
{
    if j > i {
        lemma_digits_value_nonneg(s, i, j - 1);
        assert(is_digit(s[j - 1]));
        assert(digits_value(s, i, j - 1) * 10 >= 0) by (nonlinear_arith)
            requires
                digits_value(s, i, j - 1) >= 0,
        ;
    }
}

/// The value of a digit stretch grows with its length.
proof fn lemma_digits_value_mono(s: Seq<u8>, i: int, j: int, k: int)
    requires
        0 <= i <= j <= k <= s.len(),
        forall|t: int| #![trigger s[t]] i <= t < k ==> is_digit(s[t]),
    ensures
        0 <= digits_value(s, i, j),
        digits_value(s, i, j) <= digits_value(s, i, k),
    decreases k - j,
{
    lemma_digits_value_nonneg(s, i, j);
    if k > j {
        lemma_digits_value_mono(s, i, j, k - 1);
        lemma_digits_value_nonneg(s, i, k - 1);
        assert(is_digit(s[k - 1]));
        assert(digits_value(s, i, k) == digits_value(s, i, k - 1) * 10 + (s[k - 1] - 48));
        assert(digits_value(s, i, k - 1) * 10 >= digits_value(s, i, k - 1)) by (nonlinear_arith)
            requires
                digits_value(s, i, k - 1) >= 0,
        ;
    }
}

/// Parse an unsigned number at position `i`.
fn parse_u64(s: &Vec<u8>, i: usize) -> (r: Option<(u64, usize)>)
    requires
        i <= s@.len(),
    ensures
        r is None <==> spec_parse_u64(s@, i as int) is None,
        r matches Some(p) ==> spec_parse_u64(s@, i as int) == Some((p.0, p.1 as int)) && i < p.1
            <= s@.len(),
{
    let ghost e = spec_digits_end(s@, i as int);
    proof {
        lemma_digits_end_bounds(s@, i as int);
    }
    let mut j: usize = i;
    let mut acc: u64 = 0;
    while j < s.len() && 48 <= s[j] && s[j] <= 57
        invariant
            i <= j <= s@.len(),
            e == spec_digits_end(s@, i as int),
            i <= e <= s@.len(),
            forall|t: int| i <= t < e ==> is_digit(s@[t]),
            e == s@.len() || !is_digit(s@[e]),
            forall|t: int| i <= t < j ==> is_digit(s@[t]),
            acc == digits_value(s@, i as int, j as int),
        decreases s@.len() - j,
    {
        let d = s[j] - 48;
        proof {
            assert(j < e) by {
                if j >= e {
                    assert(is_digit(s@[e]));
                }
            }
            lemma_digits_value_mono(s@, i as int, i as int, j + 1);
        }
        let step = match acc.checked_mul(10) {
            Some(m) => m.checked_add(d as u64),
            None => None,
        };
        match step {
            Some(next) => {
                acc = next;
            },
            None => {
                proof {
                    assert(digits_value(s@, i as int, j + 1) == acc * 10 + d);
                    assert(digits_value(s@, i as int, j + 1) > u64::MAX);
                    lemma_digits_value_mono(s@, i as int, j + 1, e);
                    assert(digits_value(s@, i as int, e) > u64::MAX);
                }
                return None;
            },
        }
        j = j + 1;
    }
    proof {
        lemma_digits_end_exact(s@, i as int, j as int);
    }
    if j == i {
        return None;
    }
    Some((acc, j))
}

/// Parse a signed number at position `i`.
fn parse_i64(s: &Vec<u8>, i: usize) -> (r: Option<(i64, usize)>)
    requires
        i <= s@.len(),
    ensures
        r is None <==> spec_parse_i64(s@, i as int) is None,
        r matches Some(p) ==> spec_parse_i64(s@, i as int) == Some((p.0, p.1 as int)) && i < p.1
            <= s@.len(),
{
    if i < s.len() && s[i] == 45 {
        match parse_u64(s, i + 1) {
            None => None,
            Some((m, j)) => {
                if m > 0x8000_0000_0000_0000u64 {
                    None
                } else if m == 0x8000_0000_0000_0000u64 {
                    Some((i64::MIN, j))
                } else {
                    Some((-(m as i64), j))
                }
            },
        }
    } else {
        match parse_u64(s, i) {
            None => None,
            Some((m, j)) => {
                if m > i64::MAX as u64 {
                    None
                } else {
                    Some((m as i64, j))
                }
            },
        }
    }
}

/// Parse a record at position `i`, spending one unit of fuel per nesting
/// level.
fn parse_node(s: &Vec<u8>, i: usize, fuel: usize) -> (r: Option<(NodeSerialized, usize)>)
    requires
        i <= s@.len(),
    ensures
        r is None <==> spec_parse_node(s@, i as int, fuel as nat) is None,
        r matches Some(p) ==> spec_parse_node(s@, i as int, fuel as nat) == Some((
            p.0,
            p.1 as int,
        )) && i < p.1 <= s@.len(),
    decreases fuel, 0int,
{
    if fuel == 0 {
        return None;
    }
    let s_len = s.len();
    let open_value = lit_value_vec();
    if bytes_at(s, i, &open_value) {
        let v_pos = i + open_value.len();
        match parse_i64(s, v_pos) {
            None => None,
            Some((v, j)) => {
                if j < s.len() && s[j] == 125 {
                    Some((
                        NodeSerialized {
                            threshold: 0,
                            feature_idx: 0,
                            info_gain: 0,
                            value: Some(v),
                            left: None,
                            right: None,
                        },
                        j + 1,
                    ))
                } else {
                    None
                }
            },
        }
    } else {
        let open_threshold = lit_threshold_vec();
        if bytes_at(s, i, &open_threshold) {
            match parse_i64(s, i + open_threshold.len()) {
                None => None,
                Some((thr, j1)) => {
                    let key_feature = lit_feature_vec();
                    if bytes_at(s, j1, &key_feature) {
                        match parse_u64(s, j1 + key_feature.len()) {
                            None => None,
                            Some((fi, j2)) => {
                                let key_info = lit_info_vec();
                                if fi <= usize::MAX as u64 && bytes_at(s, j2, &key_info) {
                                    match parse_i64(s, j2 + key_info.len()) {
                                        None => None,
                                        Some((ig, j3)) => {
                                            let key_left = lit_left_vec();
                                            if bytes_at(s, j3, &key_left) {
                                                match parse_child(s, j3 + key_left.len(), fuel - 1) {
                                                    None => None,
                                                    Some((lc, j4)) => {
                                                        let key_right = lit_right_vec();
                                                        if bytes_at(s, j4, &key_right) {
                                                            match parse_child(
                                                                s,
                                                                j4 + key_right.len(),
                                                                fuel - 1,
                                                            ) {
                                                                None => None,
                                                                Some((rc, j5)) => {
                                                                    if j5 < s.len() && s[j5]
                                                                        == 125 {
                                                                        Some((
                                                                            NodeSerialized {
                                                                                threshold: thr,
                                                                                feature_idx: fi
                                                                                    as usize,
                                                                                info_gain: ig,
                                                                                value: None,
                                                                                left: lc,
                                                                                right: rc,
                                                                            },
                                                                            j5 + 1,
                                                                        ))
                                                                    } else {
                                                                        None
                                                                    }
                                                                },
                                                            }
                                                        } else {
                                                            None
                                                        }
                                                    },
                                                }
                                            } else {
                                                None
                                            }
                                        },
                                    }
                                } else {
                                    None
                                }
                            },
                        }
                    } else {
                        None
                    }
                },
            }
        } else {
            None
        }
    }
}

/// Parse a child position: the absent-child marker or a nested record.
fn parse_child(s: &Vec<u8>, i: usize, fuel: usize) -> (r: Option<
    (Option<Box<NodeSerialized>>, usize),
>)
    requires
        i <= s@.len(),
    ensures
        r is None <==> spec_parse_child(s@, i as int, fuel as nat) is None,
        r matches Some(p) ==> spec_parse_child(s@, i as int, fuel as nat) == Some((
            p.0,
            p.1 as int,
        )) && i <= p.1 <= s@.len(),
    decreases fuel, 1int,
{
    let s_len = s.len();
    let null_lit = lit_null_vec();
    if bytes_at(s, i, &null_lit) {
        Some((None, i + null_lit.len()))
    } else {
        match parse_node(s, i, fuel) {
            None => None,
            Some((n, j)) => Some((Some(Box::new(n)), j)),
        }
    }
}

/// The digits of a number are at least one byte, all of them digits.
proof fn lemma_spec_digits_wf(n: nat)
    ensures
        spec_digits(n).len() >= 1,
        forall|k: int|
            0 <= k < spec_digits(n).len() ==> is_digit(#[trigger] spec_digits(n)[k]),
    decreases n,
{
    if n >= 10 {
        lemma_spec_digits_wf(n / 10);
        assert forall|k: int| 0 <= k < spec_digits(n).len() implies is_digit(
            #[trigger] spec_digits(n)[k],
        ) by {
            if k < spec_digits(n).len() - 1 {
                assert(spec_digits(n)[k] == spec_digits(n / 10)[k]);
                assert(is_digit(spec_digits(n / 10)[k]));
            }
        }
    }
}

/// The digits a number renders to spell that number back.
proof fn lemma_digits_value_of_digits(s: Seq<u8>, i: int, n: nat)
    requires
        0 <= i,
        i + spec_digits(n).len() <= s.len(),
        s.subrange(i, i + spec_digits(n).len()) == spec_digits(n),
    ensures
        digits_value(s, i, i + spec_digits(n).len()) == n,
    decreases n,
{
    let l = spec_digits(n).len() as int;
    if n < 10 {
        assert(s.subrange(i, i + l)[0] == s[i]);
        assert(s[i] == spec_digits(n)[0]);
        assert(s[i] == (48 + n) as u8);
        assert(digits_value(s, i, i) == 0);
        assert(digits_value(s, i, i + 1) == digits_value(s, i, i) * 10 + (s[i] - 48));
    } else {
        let pl = spec_digits(n / 10).len() as int;
        assert(spec_digits(n) == spec_digits(n / 10).push((48 + n % 10) as u8));
        assert(l == pl + 1);
        assert(s.subrange(i, i + pl) =~= spec_digits(n / 10)) by {
            assert forall|q: int| 0 <= q < pl implies #[trigger] s.subrange(i, i + pl)[q]
                == spec_digits(n / 10)[q] by {
                assert(s.subrange(i, i + l)[q] == s[i + q]);
                assert(spec_digits(n)[q] == spec_digits(n / 10)[q]);
            }
        }
        lemma_digits_value_of_digits(s, i, n / 10);
        assert(s.subrange(i, i + l)[l - 1] == s[i + l - 1]);
        assert(s[i + l - 1] == spec_digits(n)[l - 1]);
        assert(spec_digits(n)[l - 1] == (48 + n % 10) as u8);
        assert(digits_value(s, i, i + l) == digits_value(s, i, i + l - 1) * 10 + (s[i + l - 1]
            - 48));
        assert(s[i + l - 1] - 48 == n % 10);
        assert(n == 10 * (n / 10) + n % 10) by {
            vstd::arithmetic::div_mod::lemma_fundamental_div_mod(n as int, 10);
        }
    }
}

/// An unsigned number parses back from its digits, given that no further
/// digit follows them.
proof fn lemma_parse_render_u64(s: Seq<u8>, i: int, n: u64)
    requires
        0 <= i,
        i + spec_digits(n as nat).len() <= s.len(),
        s.subrange(i, i + spec_digits(n as nat).len()) == spec_digits(n as nat),
        i + spec_digits(n as nat).len() == s.len() || !is_digit(
            s[i + spec_digits(n as nat).len()],
        ),
    ensures
        spec_parse_u64(s, i) == Some((n, i + spec_digits(n as nat).len())),
{
    let l = spec_digits(n as nat).len() as int;
    lemma_spec_digits_wf(n as nat);
    assert forall|t: int| i <= t < i + l implies is_digit(s[t]) by {
        assert(s.subrange(i, i + l)[t - i] == s[t]);
        assert(is_digit(spec_digits(n as nat)[t - i]));
    }
    lemma_digits_end_exact(s, i, i + l);
    lemma_digits_value_of_digits(s, i, n as nat);
}

/// A signed number parses back from its rendering, given that no further
/// digit follows it.
proof fn lemma_parse_render_i64(s: Seq<u8>, i: int, v: i64)
    requires
        0 <= i,
        i + spec_render_i64(v).len() <= s.len(),
        s.subrange(i, i + spec_render_i64(v).len()) == spec_render_i64(v),
        i + spec_render_i64(v).len() == s.len() || !is_digit(s[i + spec_render_i64(v).len()]),
    ensures
        spec_parse_i64(s, i) == Some((v, i + spec_render_i64(v).len())),
{
    let l = spec_render_i64(v).len() as int;
    if v >= 0 {
        lemma_spec_digits_wf(v as nat);
        assert(s.subrange(i, i + l)[0] == s[i]);
        assert(is_digit(s[i]));
        assert(s[i] != 45);
        lemma_parse_render_u64(s, i, v as u64);
    } else {
        let mag = (0 - v as int) as nat;
        let dl = spec_digits(mag).len() as int;
        assert(l == 1 + dl);
        assert(s.subrange(i, i + l)[0] == s[i]);
        assert(spec_render_i64(v)[0] == 45);
        assert(s[i] == 45);
        assert(s.subrange(i + 1, i + 1 + dl) =~= spec_digits(mag)) by {
            assert forall|q: int| 0 <= q < dl implies #[trigger] s.subrange(i + 1, i + 1 + dl)[q]
                == spec_digits(mag)[q] by {
                assert(s.subrange(i, i + l)[1 + q] == s[i + 1 + q]);
                assert(spec_render_i64(v)[1 + q] == spec_digits(mag)[q]);
            }
        }
        let magw: u64 = mag as u64;
        assert(mag <= 0x8000_0000_0000_0000u64);
        assert(magw as nat == mag);
        lemma_parse_render_u64(s, i + 1, magw);
    }
}

/// A record in the shape the mirror of a tree takes: a record with a
/// present `value` carries nothing else, and children are again such
/// records.
pub open spec fn canonical_record(ns: NodeSerialized) -> bool
    decreases ns,
{
    match ns.value {
        Some(_) => ns.threshold == 0 && ns.feature_idx == 0 && ns.info_gain == 0 && ns.left
            is None && ns.right is None,
        None => {
            &&& match ns.left {
                Some(l) => canonical_record(*l),
                None => true,
            }
            &&& match ns.right {
                Some(r) => canonical_record(*r),
                None => true,
            }
        },
    }
}

/// The mirror a tree saves to is canonical.
pub proof fn lemma_save_canonical(n: Node)
    ensures
        canonical_record(n.spec_save()),
    decreases n,
{
    match n {
        Node::Leaf { .. } => {
        },
        Node::Decision { left, right, .. } => {
            lemma_save_canonical(*left);
            lemma_save_canonical(*right);
        },
    }
}

/// The nesting depth of a record.
pub open spec fn record_height(ns: NodeSerialized) -> nat
    decreases ns,
{
    let lh = match ns.left {
        Some(l) => record_height(*l),
        None => 0,
    };
    let rh = match ns.right {
        Some(r) => record_height(*r),
        None => 0,
    };
    1 + if lh >= rh {
        lh
    } else {
        rh
    }
}

/// Every record rendering opens with an opening brace and is nonempty.
proof fn lemma_render_first(ns: NodeSerialized)
    ensures
        spec_render_node(ns).len() >= 11,
        spec_render_node(ns)[0] == 123,
{
    match ns.value {
        Some(v) => {
            lemma_spec_digits_wf(if v >= 0 {
                v as nat
            } else {
                (0 - v as int) as nat
            });
        },
        None => {
            lemma_spec_digits_wf(ns.feature_idx as nat);
        },
    }
}

/// A canonical record nests no deeper than its rendering is long.
proof fn lemma_render_height(ns: NodeSerialized)
    requires
        canonical_record(ns),
    ensures
        record_height(ns) <= spec_render_node(ns).len(),
    decreases ns,
{
    lemma_render_first(ns);
    match ns.value {
        Some(_) => {
        },
        None => {
            match ns.left {
                Some(l) => {
                    lemma_render_height(*l);
                },
                None => {
                },
            }
            match ns.right {
                Some(r) => {
                    lemma_render_height(*r);
                },
                None => {
                },
            }
        },
    }
}

/// Splitting a known concatenation at its seam: each half stands at its own
/// position.
proof fn lemma_split_concat(s: Seq<u8>, i: int, x: Seq<u8>, y: Seq<u8>)
    requires
        0 <= i,
        i + x.len() + y.len() <= s.len(),
        s.subrange(i, i + x.len() + y.len()) == x + y,
    ensures
        s.subrange(i, i + x.len()) == x,
        s.subrange(i + x.len(), i + x.len() + y.len()) == y,
{
    assert(s.subrange(i, i + x.len()) =~= x) by {
        assert forall|q: int| 0 <= q < x.len() implies #[trigger] s.subrange(i, i + x.len())[q]
            == x[q] by {
            assert(s.subrange(i, i + x.len() + y.len())[q] == s[i + q]);
            assert((x + y)[q] == x[q]);
        }
    }
    assert(s.subrange(i + x.len(), i + x.len() + y.len()) =~= y) by {
        assert forall|q: int| 0 <= q < y.len() implies #[trigger] s.subrange(
            i + x.len(),
            i + x.len() + y.len(),
        )[q] == y[q] by {
            assert(s.subrange(i, i + x.len() + y.len())[x.len() + q] == s[i + x.len() + q]);
            assert((x + y)[x.len() + q] == y[q]);
        }
    }
}

#[verifier::rlimit(100)]
#[verifier::spinoff_prover]
proof fn lemma_parse_render_leaf(s: Seq<u8>, i: int, ns: NodeSerialized, fuel: nat)
    requires
        ns.value is Some,
        canonical_record(ns),
        fuel >= record_height(ns),
        0 <= i,
        i + spec_render_node(ns).len() <= s.len(),
        s.subrange(i, i + spec_render_node(ns).len()) == spec_render_node(ns),
    ensures
        spec_parse_node(s, i, fuel) == Some((ns, i + spec_render_node(ns).len())),
    decreases ns, 0int,
{
    let r = spec_render_node(ns);
    let rl = r.len() as int;
        let a1 = lit_value();
        let v = ns.value->0;
    let a2 = spec_render_i64(v);
        assert(r == a1 + a2 + seq![125u8]);
        let o1 = a1.len() as int;
        let o2 = o1 + a2.len();
        assert(rl == o2 + 1);
        let p2 = a1 + a2;
        assert(r == p2 + seq![125u8]);
        lemma_split_concat(s, i, p2, seq![125u8]);
        lemma_split_concat(s, i, a1, a2);
        assert(s.subrange(i + o2, i + o2 + 1)[0] == s[i + o2]);
        assert(s[i + o2] == 125);
        assert(spec_match(s, i, lit_value()));
        lemma_parse_render_i64(s, i + o1, v);
        assert(spec_parse_node(s, i, fuel) == Some((leaf_record(v), i + o2 + 1)));
        assert(leaf_record(v) == ns);
}

#[verifier::rlimit(100)]
#[verifier::spinoff_prover]
proof fn lemma_parse_render_decision(s: Seq<u8>, i: int, ns: NodeSerialized, fuel: nat)
    requires
        ns.value is None,
        canonical_record(ns),
        fuel >= record_height(ns),
        0 <= i,
        i + spec_render_node(ns).len() <= s.len(),
        s.subrange(i, i + spec_render_node(ns).len()) == spec_render_node(ns),
    ensures
        spec_parse_node(s, i, fuel) == Some((ns, i + spec_render_node(ns).len())),
    decreases ns, 0int,
{
    let r = spec_render_node(ns);
    let rl = r.len() as int;
        let a1 = lit_threshold();
        let a2 = spec_render_i64(ns.threshold);
        let a3 = lit_feature();
        let a4 = spec_digits(ns.feature_idx as nat);
        let a5 = lit_info();
        let a6 = spec_render_i64(ns.info_gain);
        let a7 = lit_left();
        let a8 = match ns.left {
            Some(l) => spec_render_node(*l),
            None => lit_null(),
        };
        let a9 = lit_right();
        let a10 = match ns.right {
            Some(rc) => spec_render_node(*rc),
            None => lit_null(),
        };
        assert(r == a1 + a2 + a3 + a4 + a5 + a6 + a7 + a8 + a9 + a10 + seq![125u8]);
        let o1 = a1.len() as int;
        let o2 = o1 + a2.len();
        let o3 = o2 + a3.len();
        let o4 = o3 + a4.len();
        let o5 = o4 + a5.len();
        let o6 = o5 + a6.len();
        let o7 = o6 + a7.len();
        let o8 = o7 + a8.len();
        let o9 = o8 + a9.len();
        let o10 = o9 + a10.len();
        assert(rl == o10 + 1);
        let p2 = a1 + a2;
        let p3 = p2 + a3;
        let p4 = p3 + a4;
        let p5 = p4 + a5;
        let p6 = p5 + a6;
        let p7 = p6 + a7;
        let p8 = p7 + a8;
        let p9 = p8 + a9;
        let p10 = p9 + a10;
        assert(r == p10 + seq![125u8]);
        lemma_split_concat(s, i, p10, seq![125u8]);
        lemma_split_concat(s, i, p9, a10);
        lemma_split_concat(s, i, p8, a9);
        lemma_split_concat(s, i, p7, a8);
        lemma_split_concat(s, i, p6, a7);
        lemma_split_concat(s, i, p5, a6);
        lemma_split_concat(s, i, p4, a5);
        lemma_split_concat(s, i, p3, a4);
        lemma_split_concat(s, i, p2, a3);
        lemma_split_concat(s, i, a1, a2);
        assert(s.subrange(i + o10, i + o10 + 1)[0] == s[i + o10]);
        assert(s[i + o10] == 125);
        // the leaf opening does not stand here
        assert(!spec_match(s, i, lit_value())) by {
            if spec_match(s, i, lit_value()) {
                assert(s.subrange(i, i + lit_value().len())[2] == s[i + 2]);
                assert(s[i + 2] == 118);
            }
            assert(s.subrange(i, i + o1)[2] == s[i + 2]);
            assert(a1[2] == 116);
        }
        assert(spec_match(s, i, lit_threshold()));
        lemma_parse_render_i64(s, i + o1, ns.threshold);
        assert(spec_match(s, i + o2, lit_feature()));
        lemma_parse_render_u64(s, i + o3, ns.feature_idx as u64);
        assert(ns.feature_idx as u64 <= usize::MAX as u64);
        assert(spec_match(s, i + o4, lit_info()));
        lemma_parse_render_i64(s, i + o5, ns.info_gain);
        assert(spec_match(s, i + o6, lit_left()));
        // the left child position
        match ns.left {
            Some(l) => {
                lemma_render_first(*l);
                assert(!spec_match(s, i + o7, lit_null())) by {
                    if spec_match(s, i + o7, lit_null()) {
                        assert(s.subrange(i + o7, i + o7 + lit_null().len())[0] == s[i + o7]);
                    }
                    assert(s.subrange(i + o7, i + o8)[0] == s[i + o7]);
                    assert(a8[0] == 123);
                }
                lemma_parse_render_node(s, i + o7, *l, (fuel - 1) as nat);
                assert(spec_parse_child(s, i + o7, (fuel - 1) as nat) == Some(
                    (Some(Box::new(*l)), i + o8),
                ));
                assert(Some(Box::new(*l)) == ns.left);
            },
            None => {
                assert(spec_match(s, i + o7, lit_null()));
                assert(spec_parse_child(s, i + o7, (fuel - 1) as nat) == Some(
                    (None::<Box<NodeSerialized>>, i + o8),
                ));
            },
        }
        assert(spec_match(s, i + o8, lit_right()));
        match ns.right {
            Some(rc) => {
                lemma_render_first(*rc);
                assert(!spec_match(s, i + o9, lit_null())) by {
                    if spec_match(s, i + o9, lit_null()) {
                        assert(s.subrange(i + o9, i + o9 + lit_null().len())[0] == s[i + o9]);
                    }
                    assert(s.subrange(i + o9, i + o10)[0] == s[i + o9]);
                    assert(a10[0] == 123);
                }
                lemma_parse_render_node(s, i + o9, *rc, (fuel - 1) as nat);
                assert(spec_parse_child(s, i + o9, (fuel - 1) as nat) == Some(
                    (Some(Box::new(*rc)), i + o10),
                ));
                assert(Some(Box::new(*rc)) == ns.right);
            },
            None => {
                assert(spec_match(s, i + o9, lit_null()));
                assert(spec_parse_child(s, i + o9, (fuel - 1) as nat) == Some(
                    (None::<Box<NodeSerialized>>, i + o10),
                ));
            },
        }
        assert(spec_parse_node(s, i, fuel) == Some((ns, i + rl)));
}

/// A rendered canonical record parses back to exactly that record, wherever
/// it stands in a document, consuming exactly its own bytes.
proof fn lemma_parse_render_node(s: Seq<u8>, i: int, ns: NodeSerialized, fuel: nat)
    requires
        canonical_record(ns),
        fuel >= record_height(ns),
        0 <= i,
        i + spec_render_node(ns).len() <= s.len(),
        s.subrange(i, i + spec_render_node(ns).len()) == spec_render_node(ns),
    ensures
        spec_parse_node(s, i, fuel) == Some((ns, i + spec_render_node(ns).len())),
    decreases ns, 1int,
{
    match ns.value {
        Some(_) => lemma_parse_render_leaf(s, i, ns, fuel),
        None => lemma_parse_render_decision(s, i, ns, fuel),
    }
}

/// The round trip of one record through the document text: rendering a
/// canonical record and parsing the document back yields that very record.
pub proof fn lemma_document_round_trip(ns: NodeSerialized)
    requires
        canonical_record(ns),
    ensures
        spec_parse_document(spec_render_node(ns)) == Some(ns),
{
    let doc = spec_render_node(ns);
    lemma_render_height(ns);
    assert(doc.subrange(0, doc.len() as int) =~= doc);
    lemma_parse_render_node(doc, 0, ns, doc.len());
}

/// Parse a whole document into a persistence record; every byte must be
/// consumed.
pub fn parse_document(doc: &Vec<u8>) -> (r: Option<NodeSerialized>)
    ensures
        r == spec_parse_document(doc@),
{
    match parse_node(doc, 0, doc.len()) {
        None => None,
        Some((ns, j)) => {
            if j == doc.len() {
                Some(ns)
            } else {
                None
            }
        },
    }
}

} // verus!
