//! A model of the property-list document tree: the library's own node
//! type, the trusted boundary that builds it through the xml crate, and
//! verified helpers for reading it.
use vstd::prelude::*;

use crate::color::ColorError;
use crate::color::NumError;
use crate::num::all_dec_digits;
use crate::num::check_digits;
use crate::num::dec_val;
use crate::num::has_nonzero_digit;
use crate::num::is_dec_digit;
use crate::num::lemma_dec_val_bounds;
use crate::num::lemma_dec_val_split;
use crate::num::lemma_pow10_add;
use crate::num::lemma_pow10_mono;
use crate::num::lemma_pow10_pos;
use crate::num::pow10;
use crate::num::scaled_frac_value;
use crate::text::count_char;
use crate::text::count_char_str;
use crate::text::split_on;
use crate::text::split_str;
use crate::text::str_eq;
use vstd::arithmetic::div_mod::lemma_basic_div;
use vstd::arithmetic::div_mod::lemma_div_denominator;
use vstd::arithmetic::div_mod::lemma_div_is_ordered;
use vstd::arithmetic::div_mod::lemma_div_multiples_vanish;
use vstd::arithmetic::div_mod::lemma_multiply_divide_lt;

verus! {

#[verifier::external_type_specification]
#[verifier::external_body]
pub struct ExXml(xml::Xml);

/// An element of the document tree: its name, its namespace, and its
/// child nodes in document order.
pub struct XmlElement {
    pub name: String,
    pub ns: Option<String>,
    pub children: Vec<XmlNode>,
}

/// One node of the document tree, one variant per node kind of the
/// document language.
pub enum XmlNode {
    Elem(XmlElement),
    Text(String),
    Cdata(String),
    Comment(String),
    Instruction(String),
}

/// The document tree that parsing a given text yields, if any; parsing
/// is deterministic, a function of the text alone.
pub uninterp spec fn plist_root_of(s: Seq<char>) -> Option<XmlElement>;

/// A run of `n` consecutive right-bracket characters starting at `i`.
pub open spec fn bracket_run_at(s: Seq<char>, i: int, n: nat) -> bool {
    0 <= i && i + n <= s.len() && forall|j: int| i <= j < i + n ==> (#[trigger] s[j]) == ']'
}

/// Somewhere in `s` stand `n` right brackets in a row.
pub open spec fn has_bracket_run(s: Seq<char>, n: nat) -> bool {
    exists|i: int| #[trigger] bracket_run_at(s, i, n)
}

/// The inputs the document parser is trusted on: a bounded number of
/// tag-opening characters, which bounds element nesting and so every
/// recursion over the tree, and no run of 256 right brackets, which
/// would overflow the byte-sized counter of the parser's
/// character-data state.
pub open spec fn plist_input_ok(s: Seq<char>) -> bool {
    count_char(s, '<') <= 4096 && !has_bracket_run(s, 256)
}

/// Scans for a run of 256 consecutive right brackets.
fn has_long_bracket_run(s: &str) -> (r: bool)
    ensures
        r == has_bracket_run(s@, 256),
{
    let n = s.unicode_len();
    let mut run: usize = 0;
    let mut idx: usize = 0;
    while idx < n
        invariant
            n == s@.len(),
            idx <= n,
            run <= idx,
            run < 256,
            forall|j: int| idx - run <= j < idx ==> (#[trigger] s@[j]) == ']',
            run < idx ==> s@[idx - run - 1] != ']',
            forall|i: int| 0 <= i && i + 256 <= idx ==> !bracket_run_at(s@, i, 256),
        decreases n - idx,
    {
        let c = s.get_char(idx);
        let ghost old_run = run as int;
        if c == ']' {
            run += 1;
            if run == 256 {
                proof {
                    assert forall|j: int| idx + 1 - 256 <= j < idx + 1 implies (#[trigger] s@[j])
                        == ']' by {
                        if j < idx {
                        }
                    }
                    assert(bracket_run_at(s@, idx + 1 - 256, 256));
                }
                return true;
            }
        } else {
            run = 0;
        }
        proof {
            assert forall|i: int| 0 <= i && i + 256 <= idx + 1 implies !bracket_run_at(
                s@,
                i,
                256,
            ) by {
                if i + 256 == idx + 1 {
                    if s@[idx as int] != ']' {
                        assert(i <= idx < i + 256);
                        assert(!bracket_run_at(s@, i, 256));
                    } else {
                        let q = idx - old_run - 1;
                        assert(old_run < idx);
                        assert(s@[q] != ']');
                        assert(i <= q < i + 256);
                        assert(!bracket_run_at(s@, i, 256));
                    }
                }
            }
        }
        idx += 1;
    }
    proof {
        assert forall|i: int| !bracket_run_at(s@, i, 256) by {
            if 0 <= i && i + 256 <= n {
            }
        }
    }
    false
}

/// Checks the two machine bounds the document parser is trusted under.
pub fn plist_input_check(s: &str) -> (r: bool)
    ensures
        r == plist_input_ok(s@),
{
    if count_char_str(s, '<') > 4096 {
        return false;
    }
    !has_long_bracket_run(s)
}

/// Relies on xml's `Xml` node enum: each node kind is carried over into
/// the library's own tree type one-for-one, names, namespaces and
/// children included.
#[verifier::external_body]
fn convert_node(x: &xml::Xml) -> XmlNode {
    match x {
        xml::Xml::ElementNode(e) => XmlNode::Elem(XmlElement {
            name: e.name.clone(),
            ns: e.ns.clone(),
            children: e.children.iter().map(|c| convert_node(c)).collect(),
        }),
        xml::Xml::CharacterNode(s) => XmlNode::Text(s.clone()),
        xml::Xml::CDATANode(s) => XmlNode::Cdata(s.clone()),
        xml::Xml::CommentNode(s) => XmlNode::Comment(s.clone()),
        xml::Xml::PINode(s) => XmlNode::Instruction(s.clone()),
    }
}

/// Relies on xml's `Element` `FromStr` parser: building the document
/// tree from the text is deterministic, so the result carries the name
/// `plist_root_of`; text that does not parse as a document yields `None`.
/// The precondition keeps out the inputs on which the parser can abort
/// instead of returning: a run of 256 right brackets overflows the
/// byte-sized counter of its character-data state, and unbounded element
/// nesting (bounded here through the tag-opening count) exhausts the
/// stack in the recursions over the tree.
#[verifier::external_body]
pub(crate) fn parse_xml_document(content: &str) -> (r: Option<XmlElement>)
    requires
        plist_input_ok(content@),
    ensures
        r == plist_root_of(content@),
{
    match content.parse::<xml::Element>() {
        Ok(e) => Some(XmlElement {
            name: e.name.clone(),
            ns: e.ns.clone(),
            children: e.children.iter().map(|c| convert_node(c)).collect(),
        }),
        Err(_) => None,
    }
}

/// The child elements that bear the given name and no namespace, kept in
/// document order.
pub open spec fn named_children(nodes: Seq<XmlNode>, name: Seq<char>) -> Seq<XmlElement>
    decreases nodes.len(),
{
    if nodes.len() == 0 {
        seq![]
    } else {
        let rest = named_children(nodes.drop_first(), name);
        match nodes[0] {
            XmlNode::Elem(e) => if e.ns is None && e.name@ == name {
                seq![e] + rest
            } else {
                rest
            },
            _ => rest,
        }
    }
}

pub proof fn lemma_named_children_append(a: Seq<XmlNode>, b: Seq<XmlNode>, name: Seq<char>)
    ensures
        named_children(a + b, name) == named_children(a, name) + named_children(b, name),
    decreases a.len(),
{
    if a.len() == 0 {
        assert(a + b =~= b);
        assert(named_children(a, name) + named_children(b, name) =~= named_children(b, name));
    } else {
        lemma_named_children_append(a.drop_first(), b, name);
        assert((a + b).drop_first() =~= a.drop_first() + b);
        assert((a + b)[0] == a[0]);
        match a[0] {
            XmlNode::Elem(e) => {
                if e.ns is None && e.name@ == name {
                    assert(seq![e] + (named_children(a.drop_first(), name) + named_children(
                        b,
                        name,
                    )) =~= (seq![e] + named_children(a.drop_first(), name)) + named_children(
                        b,
                        name,
                    ));
                }
            },
            _ => {},
        }
    }
}

/// Finds the k-th child element bearing the given name and no namespace.
pub fn nth_named_child<'a>(children: &'a Vec<XmlNode>, name: &str, k: usize) -> (r: Option<
    &'a XmlElement,
>)
    ensures
        match r {
            Some(e) => k < named_children(children@, name@).len() && *e == named_children(
                children@,
                name@,
            )[k as int],
            None => named_children(children@, name@).len() <= k,
        },
{
    let n = children.len();
    let mut count: usize = 0;
    let mut i: usize = 0;
    proof {
        assert(children@.take(0) =~= Seq::<XmlNode>::empty());
    }
    while i < n
        invariant
            n == children@.len(),
            i <= n,
            count <= k,
            count == named_children(children@.take(i as int), name@).len(),
        decreases n - i,
    {
        proof {
            assert(children@.take(i + 1) =~= children@.take(i as int) + seq![children@[i as int]]);
            lemma_named_children_append(
                children@.take(i as int),
                seq![children@[i as int]],
                name@,
            );
            assert(seq![children@[i as int]].drop_first() =~= Seq::<XmlNode>::empty());
            assert(named_children(Seq::<XmlNode>::empty(), name@) =~= Seq::<XmlElement>::empty());
            assert(seq![children@[i as int]][0] == children@[i as int]);
        }
        match &children[i] {
            XmlNode::Elem(e) => {
                if e.ns.is_none() && str_eq(e.name.as_str(), name) {
                    proof {
                        assert(named_children(seq![children@[i as int]], name@) =~= seq![*e]);
                    }
                    if count == k {
                        proof {
                            assert(children@ =~= children@.take(i + 1) + children@.skip(i + 1));
                            lemma_named_children_append(
                                children@.take(i + 1),
                                children@.skip(i + 1),
                                name@,
                            );
                            assert(named_children(children@.take(i + 1), name@)[k as int] == *e);
                        }
                        return Some(e);
                    }
                    count += 1;
                } else {
                    proof {
                        assert(named_children(seq![children@[i as int]], name@) =~= Seq::<
                            XmlElement,
                        >::empty());
                    }
                }
            },
            _ => {
                proof {
                    assert(named_children(seq![children@[i as int]], name@) =~= Seq::<
                        XmlElement,
                    >::empty());
                }
            },
        }
        i += 1;
    }
    proof {
        assert(children@.take(n as int) =~= children@);
    }
    None
}

/// Counts the child elements bearing the given name and no namespace.
pub fn count_named_children(children: &Vec<XmlNode>, name: &str) -> (r: usize)
    ensures
        r == named_children(children@, name@).len(),
{
    let n = children.len();
    let mut count: usize = 0;
    let mut i: usize = 0;
    proof {
        assert(children@.take(0) =~= Seq::<XmlNode>::empty());
    }
    while i < n
        invariant
            n == children@.len(),
            i <= n,
            count <= i,
            count == named_children(children@.take(i as int), name@).len(),
        decreases n - i,
    {
        proof {
            assert(children@.take(i + 1) =~= children@.take(i as int) + seq![children@[i as int]]);
            lemma_named_children_append(
                children@.take(i as int),
                seq![children@[i as int]],
                name@,
            );
            assert(seq![children@[i as int]].drop_first() =~= Seq::<XmlNode>::empty());
            assert(named_children(Seq::<XmlNode>::empty(), name@) =~= Seq::<XmlElement>::empty());
            assert(seq![children@[i as int]][0] == children@[i as int]);
        }
        match &children[i] {
            XmlNode::Elem(e) => {
                if e.ns.is_none() && str_eq(e.name.as_str(), name) {
                    proof {
                        assert(named_children(seq![children@[i as int]], name@) =~= seq![*e]);
                    }
                    count += 1;
                } else {
                    proof {
                        assert(named_children(seq![children@[i as int]], name@) =~= Seq::<
                            XmlElement,
                        >::empty());
                    }
                }
            },
            _ => {
                proof {
                    assert(named_children(seq![children@[i as int]], name@) =~= Seq::<
                        XmlElement,
                    >::empty());
                }
            },
        }
        i += 1;
    }
    proof {
        assert(children@.take(n as int) =~= children@);
    }
    count
}

/// The text a leaf element holds: its first child, when that child is a
/// character node.
pub open spec fn spec_text(e: XmlElement) -> Option<Seq<char>> {
    if e.children@.len() > 0 {
        match e.children@[0] {
            XmlNode::Text(s) => Some(s@),
            _ => None,
        }
    } else {
        None
    }
}

/// Reads the text of a leaf element, if its first child is a character
/// node.
pub fn elem_text<'a>(e: &'a XmlElement) -> (r: Option<&'a String>)
    ensures
        match r {
            Some(s) => spec_text(*e) == Some(s@),
            None => spec_text(*e) is None,
        },
{
    if e.children.len() == 0 {
        return None;
    }
    match &e.children[0] {
        XmlNode::Text(s) => Some(s),
        _ => None,
    }
}

/// The code point of a character, with an ASCII uppercase letter taken
/// to its lowercase counterpart.
pub open spec fn lower_code(c: char) -> int {
    if 65 <= c as int <= 90 {
        c as int + 32
    } else {
        c as int
    }
}

/// The keyword for an infinite value (`inf` or `infinity`), letters in
/// any case.
pub open spec fn is_inf_kw(t: Seq<char>) -> bool {
    ||| (t.len() == 3 && lower_code(t[0]) == 105 && lower_code(t[1]) == 110 && lower_code(t[2])
        == 102)
    ||| (t.len() == 8 && lower_code(t[0]) == 105 && lower_code(t[1]) == 110 && lower_code(t[2])
        == 102 && lower_code(t[3]) == 105 && lower_code(t[4]) == 110 && lower_code(t[5]) == 105
        && lower_code(t[6]) == 116 && lower_code(t[7]) == 121)
}

/// The keyword for a not-a-number value (`nan`), letters in any case.
pub open spec fn is_nan_kw(t: Seq<char>) -> bool {
    t.len() == 3 && lower_code(t[0]) == 110 && lower_code(t[1]) == 97 && lower_code(t[2]) == 110
}

/// A leading plus or minus sign split off a numeral: whether it was a
/// minus, and what follows it.
pub open spec fn sign_split(s: Seq<char>) -> (bool, Seq<char>) {
    if s.len() > 0 && (s[0] == '+' || s[0] == '-') {
        (s[0] == '-', s.drop_first())
    } else {
        (false, s)
    }
}

/// The significand and the exponent field around the first exponent
/// marker, if there is one.
pub open spec fn split_exp(t: Seq<char>) -> Option<(Seq<char>, Seq<char>)>
    decreases t.len(),
{
    if t.len() == 0 {
        None
    } else if t[0] == 'e' || t[0] == 'E' {
        Some((Seq::<char>::empty(), t.drop_first()))
    } else {
        match split_exp(t.drop_first()) {
            None => None,
            Some(p) => Some((seq![t[0]] + p.0, p.1)),
        }
    }
}

pub proof fn lemma_split_exp_none(t: Seq<char>)
    requires
        forall|j: int| 0 <= j < t.len() ==> (#[trigger] t[j]) != 'e' && t[j] != 'E',
    ensures
        split_exp(t) is None,
    decreases t.len(),
{
    if t.len() > 0 {
        assert forall|j: int|
            0 <= j < t.drop_first().len() implies (#[trigger] t.drop_first()[j]) != 'e'
            && t.drop_first()[j] != 'E' by {
            assert(t.drop_first()[j] == t[j + 1]);
        }
        lemma_split_exp_none(t.drop_first());
    }
}

pub proof fn lemma_split_exp_at(t: Seq<char>, i: int)
    requires
        0 <= i < t.len(),
        t[i] == 'e' || t[i] == 'E',
        forall|j: int| 0 <= j < i ==> (#[trigger] t[j]) != 'e' && t[j] != 'E',
    ensures
        split_exp(t) == Some((t.take(i), t.skip(i + 1))),
    decreases i,
{
    if i == 0 {
        assert(t.take(0) =~= Seq::<char>::empty());
        assert(t.skip(1) =~= t.drop_first());
    } else {
        assert forall|j: int|
            0 <= j < i - 1 implies (#[trigger] t.drop_first()[j]) != 'e' && t.drop_first()[j]
            != 'E' by {
            assert(t.drop_first()[j] == t[j + 1]);
        }
        assert(t.drop_first()[i - 1] == t[i]);
        lemma_split_exp_at(t.drop_first(), i - 1);
        assert(seq![t[0]] + t.drop_first().take(i - 1) =~= t.take(i));
        assert(t.drop_first().skip(i) =~= t.skip(i + 1));
    }
}

/// A significand: decimal digits with at most one point among them and
/// at least one digit.
pub open spec fn mant_ok(m: Seq<char>) -> bool {
    let parts = split_on(m, '.');
    parts.len() <= 2 && all_dec_digits(parts[0]) && (parts.len() < 2 || all_dec_digits(parts[1]))
        && parts[0].len() + (if parts.len() == 2 {
        parts[1].len()
    } else {
        0
    }) > 0
}

pub open spec fn mant_int(m: Seq<char>) -> Seq<char> {
    split_on(m, '.')[0]
}

pub open spec fn mant_frac(m: Seq<char>) -> Seq<char> {
    if split_on(m, '.').len() == 2 {
        split_on(m, '.')[1]
    } else {
        Seq::<char>::empty()
    }
}

/// An exponent field: an optional sign, then at least one digit.
pub open spec fn exp_ok(x: Seq<char>) -> bool {
    sign_split(x).1.len() > 0 && all_dec_digits(sign_split(x).1)
}

/// The signed value of an exponent field.
pub open spec fn exp_val(x: Seq<char>) -> int {
    if sign_split(x).0 {
        -dec_val(sign_split(x).1)
    } else {
        dec_val(sign_split(x).1)
    }
}

/// `floor(255 * v)` for the nonnegative value `v` whose decimal digits
/// are `dm` with the decimal point standing after the first `p` of them
/// (`p` may lie outside the digits).
pub open spec fn real_floor_255(dm: Seq<char>, p: int) -> int {
    if p >= dm.len() {
        255 * dec_val(dm) * pow10((p - dm.len()) as nat)
    } else {
        255 * dec_val(dm) / pow10((dm.len() - p) as nat)
    }
}

/// What a component value's text denotes, scaled to one channel. The
/// grammar is the standard decimal floating-point one: an optional
/// sign, then `inf`/`infinity`/`nan` in any letter case or a decimal
/// significand with an optional exponent. The value is taken to
/// `floor(value * 255)` exactly and saturated into 0..=255; `nan` and
/// every negative value yield 0.
pub open spec fn spec_real_to_u8(s: Seq<char>) -> Result<u8, ColorError> {
    let neg = sign_split(s).0;
    let t = sign_split(s).1;
    if s.len() == 0 {
        Err(ColorError::ParseInt(NumError::Empty))
    } else if is_nan_kw(t) {
        Ok(0u8)
    } else if is_inf_kw(t) {
        Ok(if neg {
            0u8
        } else {
            255u8
        })
    } else {
        let me = split_exp(t);
        let m = if me is Some {
            me.unwrap().0
        } else {
            t
        };
        if !mant_ok(m) || (me is Some && !exp_ok(me.unwrap().1)) {
            Err(ColorError::ParseInt(NumError::InvalidDigit))
        } else if neg {
            Ok(0u8)
        } else {
            let e = if me is Some {
                exp_val(me.unwrap().1)
            } else {
                0
            };
            let fl = real_floor_255(mant_int(m) + mant_frac(m), mant_int(m).len() + e);
            Ok(if fl >= 255 {
                255u8
            } else {
                fl as u8
            })
        }
    }
}

/// Compares a character against a lowercase code point, ignoring ASCII
/// letter case.
fn lc_eq(c: char, code: u32) -> (r: bool)
    ensures
        r == (lower_code(c) == code as int),
{
    let u = c as u32;
    let l: u32 = if 65 <= u && u <= 90 {
        u + 32
    } else {
        u
    };
    l == code
}

fn keyword_inf(t: &str) -> (r: bool)
    ensures
        r == is_inf_kw(t@),
{
    let n = t.unicode_len();
    if n == 3 {
        lc_eq(t.get_char(0), 105) && lc_eq(t.get_char(1), 110) && lc_eq(t.get_char(2), 102)
    } else if n == 8 {
        lc_eq(t.get_char(0), 105) && lc_eq(t.get_char(1), 110) && lc_eq(t.get_char(2), 102)
            && lc_eq(t.get_char(3), 105) && lc_eq(t.get_char(4), 110) && lc_eq(t.get_char(5), 105)
            && lc_eq(t.get_char(6), 116) && lc_eq(t.get_char(7), 121)
    } else {
        false
    }
}

fn keyword_nan(t: &str) -> (r: bool)
    ensures
        r == is_nan_kw(t@),
{
    let n = t.unicode_len();
    if n == 3 {
        lc_eq(t.get_char(0), 110) && lc_eq(t.get_char(1), 97) && lc_eq(t.get_char(2), 110)
    } else {
        false
    }
}

/// Finds the first exponent marker, if any.
fn find_exp_marker(t: &str) -> (r: Option<usize>)
    ensures
        match r {
            Some(i) => i < t@.len() && (t@[i as int] == 'e' || t@[i as int] == 'E') && forall|
                j: int,
            | 0 <= j < i ==> (#[trigger] t@[j]) != 'e' && t@[j] != 'E',
            None => forall|j: int| 0 <= j < t@.len() ==> (#[trigger] t@[j]) != 'e' && t@[j] != 'E',
        },
{
    let n = t.unicode_len();
    let mut i: usize = 0;
    while i < n
        invariant
            n == t@.len(),
            i <= n,
            forall|j: int| 0 <= j < i ==> (#[trigger] t@[j]) != 'e' && t@[j] != 'E',
        decreases n - i,
    {
        let c = t.get_char(i);
        if c == 'e' || c == 'E' {
            return Some(i);
        }
        i += 1;
    }
    None
}

/// An integer's worth of scaling: 255 for any nonzero digit string, 0
/// for all zeros.
fn scaled_int_case(dm: &str) -> (v: u8)
    requires
        all_dec_digits(dm@),
    ensures
        v as int == (if dec_val(dm@) >= 1 {
            255int
        } else {
            0int
        }),
{
    proof {
        lemma_dec_val_bounds(dm@);
    }
    if has_nonzero_digit(dm) {
        255
    } else {
        0
    }
}

/// Scaling with the decimal point inside the digits: 255 whenever the
/// integer part is nonzero, else the exactly scaled fraction.
fn scaled_point_case(dm: &str, pu: usize) -> (v: u8)
    requires
        all_dec_digits(dm@),
        pu < dm@.len(),
    ensures
        ({
            let fl = 255 * dec_val(dm@) / pow10((dm@.len() - pu) as nat);
            v as int == if fl >= 255 {
                255int
            } else {
                fl
            }
        }),
{
    let n = dm.unicode_len();
    let ghost a = dec_val(dm@.take(pu as int));
    let ghost b2 = dec_val(dm@.skip(pu as int));
    let ghost pp = pow10((n - pu) as nat);
    let pre = dm.substring_char(0, pu);
    proof {
        assert(pre@ == dm@.take(pu as int));
        assert forall|j: int| 0 <= j < pre@.len() implies is_dec_digit(#[trigger] pre@[j]) by {
            assert(pre@[j] == dm@[j]);
        }
        assert forall|j: int|
            0 <= j < dm@.skip(pu as int).len() implies is_dec_digit(
            #[trigger] dm@.skip(pu as int)[j],
        ) by {
            assert(dm@.skip(pu as int)[j] == dm@[pu + j]);
        }
        lemma_dec_val_split(dm@, pu as int);
        lemma_dec_val_bounds(dm@.take(pu as int));
        lemma_dec_val_bounds(dm@.skip(pu as int));
        lemma_pow10_pos((n - pu) as nat);
    }
    if has_nonzero_digit(pre) {
        proof {
            assert(dec_val(dm@) >= pp) by (nonlinear_arith)
                requires
                    dec_val(dm@) == a * pp + b2,
                    a >= 1,
                    b2 >= 0,
                    pp >= 1,
            ;
            lemma_div_multiples_vanish(255, pp);
            lemma_div_is_ordered(255 * pp, 255 * dec_val(dm@), pp);
            assert(pp * 255 == 255 * pp);
        }
        255
    } else {
        proof {
            assert(a == 0);
            assert(dec_val(dm@) == b2) by (nonlinear_arith)
                requires
                    dec_val(dm@) == a * pp + b2,
                    a == 0,
            ;
        }
        let suf = dm.substring_char(pu, n);
        proof {
            assert(suf@ == dm@.skip(pu as int));
            assert forall|j: int| 0 <= j < suf@.len() implies is_dec_digit(#[trigger] suf@[j]) by {
                assert(suf@[j] == dm@[pu + j]);
            }
        }
        let w = scaled_frac_value(suf);
        proof {
            assert(255 * b2 < pp * 255) by (nonlinear_arith)
                requires
                    b2 < pp,
            ;
            lemma_multiply_divide_lt(255 * b2, pp, 255);
        }
        w
    }
}

/// Scales a validated significand by 255 exactly: `dm` holds the digits,
/// the decimal point stands after `ilen` of them before the exponent is
/// applied, and `emag` is the exponent magnitude saturated at 10^20
/// (`e` is the true signed exponent).
fn real_scaled_byte(dm: &str, ilen: usize, eneg: bool, emag: u128, Ghost(e): Ghost<int>) -> (v: u8)
    requires
        all_dec_digits(dm@),
        ilen <= dm@.len(),
        !eneg ==> e >= 0 && emag as int == (if e < 100000000000000000000 {
            e
        } else {
            100000000000000000000
        }),
        eneg ==> e <= 0 && emag as int == (if -e < 100000000000000000000 {
            -e
        } else {
            100000000000000000000
        }),
    ensures
        ({
            let fl = real_floor_255(dm@, ilen + e);
            v as int == if fl >= 255 {
                255int
            } else {
                fl
            }
        }),
{
    let n = dm.unicode_len();
    let ghost dv = dec_val(dm@);
    proof {
        lemma_dec_val_bounds(dm@);
    }
    if !eneg {
        if emag >= (n - ilen) as u128 {
            proof {
                assert(ilen + e >= n);
            }
            let v = scaled_int_case(dm);
            proof {
                let q = (ilen + e - n) as nat;
                lemma_pow10_pos(q);
                if dv >= 1 {
                    assert(255 * dv * pow10(q) >= 255) by (nonlinear_arith)
                        requires
                            dv >= 1,
                            pow10(q) >= 1,
                    ;
                } else {
                    assert(255 * dv * pow10(q) == 0) by (nonlinear_arith)
                        requires
                            dv == 0,
                    ;
                }
            }
            v
        } else {
            let pu = ilen + (emag as usize);
            proof {
                assert(pu == ilen + e);
            }
            scaled_point_case(dm, pu)
        }
    } else {
        if emag <= ilen as u128 {
            let pu = ilen - (emag as usize);
            proof {
                assert(pu == ilen + e);
            }
            if pu == n {
                let v = scaled_int_case(dm);
                proof {
                    assert(pow10(0nat) == 1);
                }
                v
            } else {
                scaled_point_case(dm, pu)
            }
        } else {
            // the point moves left past every digit: prepend zeros, three
            // of which already force the scaled value to zero
            let c0 = scaled_frac_value(dm);
            let zt: u128 = emag - (ilen as u128);
            let z: usize = if zt > 3 {
                3
            } else {
                zt as usize
            };
            let mut c: u8 = c0;
            let mut step: usize = 0;
            proof {
                lemma_pow10_pos(n as nat);
                assert(255 * dv < pow10(n as nat) * 255) by (nonlinear_arith)
                    requires
                        dv < pow10(n as nat),
                ;
                lemma_multiply_divide_lt(255 * dv, pow10(n as nat), 255);
            }
            while step < z
                invariant
                    z <= 3,
                    step <= z,
                    n == dm@.len(),
                    dv == dec_val(dm@),
                    0 <= dv,
                    c as int == 255 * dv / pow10((n + step) as nat),
                    c <= 254,
                decreases z - step,
            {
                proof {
                    lemma_pow10_pos((n + step) as nat);
                    lemma_div_denominator(255 * dv, pow10((n + step) as nat), 10);
                    assert(pow10((n + step + 1) as nat) == 10 * pow10((n + step) as nat));
                    assert(pow10((n + step) as nat) * 10 == 10 * pow10((n + step) as nat));
                    vstd::arithmetic::div_mod::lemma_div_pos_is_pos(
                        255 * dv,
                        pow10((n + step) as nat),
                    );
                    vstd::arithmetic::div_mod::lemma_div_nonincreasing(c as int, 10);
                }
                c = c / 10;
                step += 1;
            }
            proof {
                let st = (n - (ilen + e)) as nat;
                assert(pow10(3) == 1000) by {
                    assert(pow10(0) == 1);
                    assert(pow10(1) == 10);
                    assert(pow10(2) == 100);
                }
                lemma_pow10_add(n as nat, 3);
                lemma_pow10_pos(n as nat);
                if zt <= 3 {
                    assert(emag as int == -e);
                    assert((n + z) as nat == st);
                } else {
                    assert(255 * dv < pow10((n + 3) as nat));
                    lemma_basic_div(255 * dv, pow10((n + 3) as nat));
                    assert(st >= n + 3) by {
                        if (-e) < 100000000000000000000 {
                            assert(emag as int == -e);
                        }
                    }
                    lemma_pow10_mono((n + 3) as nat, st);
                    lemma_basic_div(255 * dv, pow10(st));
                }
            }
            c
        }
    }
}

/// Parses a component value node's text and scales it to a channel byte.
pub fn parse_real_byte(s: &str) -> (r: Result<u8, ColorError>)
    ensures
        r == spec_real_to_u8(s@),
{
    let n = s.unicode_len();
    if n == 0 {
        return Err(ColorError::ParseInt(NumError::Empty));
    }
    let c0 = s.get_char(0);
    let has_sign = c0 == '+' || c0 == '-';
    let neg = c0 == '-';
    let t: &str = if has_sign {
        s.substring_char(1, n)
    } else {
        s
    };
    proof {
        if has_sign {
            assert(s@.subrange(1, n as int) =~= s@.drop_first());
        }
        assert(t@ == sign_split(s@).1);
        assert(neg == sign_split(s@).0);
    }
    if keyword_nan(t) {
        return Ok(0);
    }
    if keyword_inf(t) {
        return Ok(
            if neg {
                0
            } else {
                255
            },
        );
    }
    let tn = t.unicode_len();
    let mut m: &str = t;
    let mut x: Option<&str> = None;
    match find_exp_marker(t) {
        Some(i) => {
            proof {
                lemma_split_exp_at(t@, i as int);
            }
            m = t.substring_char(0, i);
            x = Some(t.substring_char(i + 1, tn));
        },
        None => {
            proof {
                lemma_split_exp_none(t@);
            }
        },
    }
    let parts = split_str(m, '.');
    proof {
        assert(forall|k: int|
            0 <= k < parts@.len() ==> parts@.map_values(|p: String| p@)[k] == (
            #[trigger] parts@[k])@);
    }
    if parts.len() > 2 {
        return Err(ColorError::ParseInt(NumError::InvalidDigit));
    }
    if !check_digits(parts[0].as_str()) {
        return Err(ColorError::ParseInt(NumError::InvalidDigit));
    }
    if parts.len() == 2 && !check_digits(parts[1].as_str()) {
        return Err(ColorError::ParseInt(NumError::InvalidDigit));
    }
    let ilen = parts[0].as_str().unicode_len();
    let flen = if parts.len() == 2 {
        parts[1].as_str().unicode_len()
    } else {
        0
    };
    if ilen == 0 && flen == 0 {
        return Err(ColorError::ParseInt(NumError::InvalidDigit));
    }
    let mut eneg = false;
    let mut emag: u128 = 0;
    let ghost ge: int = if split_exp(t@) is Some {
        exp_val(split_exp(t@).unwrap().1)
    } else {
        0
    };
    if let Some(xs) = x {
        let xn = xs.unicode_len();
        let mut xd: &str = xs;
        if xn > 0 {
            let xc = xs.get_char(0);
            if xc == '+' || xc == '-' {
                eneg = xc == '-';
                xd = xs.substring_char(1, xn);
            }
        }
        proof {
            if xn > 0 && (xs@[0] == '+' || xs@[0] == '-') {
                assert(xs@.subrange(1, xn as int) =~= xs@.drop_first());
            }
            assert(xd@ == sign_split(xs@).1);
            assert(eneg == sign_split(xs@).0);
        }
        let xdn = xd.unicode_len();
        if xdn == 0 {
            return Err(ColorError::ParseInt(NumError::InvalidDigit));
        }
        if !check_digits(xd) {
            return Err(ColorError::ParseInt(NumError::InvalidDigit));
        }
        proof {
            lemma_dec_val_bounds(xd@);
            assert(xd@.take(0) =~= Seq::<char>::empty());
        }
        let mut i2: usize = 0;
        while i2 < xdn
            invariant
                xdn == xd@.len(),
                i2 <= xdn,
                all_dec_digits(xd@),
                emag as int == (if dec_val(xd@.take(i2 as int)) < 100000000000000000000 {
                    dec_val(xd@.take(i2 as int))
                } else {
                    100000000000000000000int
                }),
            decreases xdn - i2,
        {
            let ch = xd.get_char(i2);
            let d: u128 = ((ch as u32) - 48) as u128;
            proof {
                assert(is_dec_digit(xd@[i2 as int]));
                assert(xd@.take(i2 + 1).drop_last() =~= xd@.take(i2 as int));
                assert(xd@.take(i2 + 1).last() == xd@[i2 as int]);
                assert forall|j: int|
                    0 <= j < xd@.take(i2 as int).len() implies is_dec_digit(
                    #[trigger] xd@.take(i2 as int)[j],
                ) by {
                    assert(xd@.take(i2 as int)[j] == xd@[j]);
                }
                lemma_dec_val_bounds(xd@.take(i2 as int));
            }
            let nm: u128 = emag * 10 + d;
            emag = if nm > 100000000000000000000 {
                100000000000000000000
            } else {
                nm
            };
            i2 += 1;
        }
        proof {
            assert(xd@.take(xdn as int) =~= xd@);
        }
    }
    if neg {
        return Ok(0);
    }
    let mut dm = String::from_str(parts[0].as_str());
    if parts.len() == 2 {
        dm.append(parts[1].as_str());
    }
    proof {
        assert(dm@ == mant_int(m@) + mant_frac(m@));
        assert forall|j: int| 0 <= j < dm@.len() implies is_dec_digit(#[trigger] dm@[j]) by {
            if j < mant_int(m@).len() {
                assert(dm@[j] == mant_int(m@)[j]);
            } else {
                assert(dm@[j] == mant_frac(m@)[j - mant_int(m@).len()]);
            }
        }
    }
    let v = real_scaled_byte(dm.as_str(), ilen, eneg, emag, Ghost(ge));
    Ok(v)
}

} // verus!
