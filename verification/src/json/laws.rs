//! What is read of a JSON value.

use super::{member_named, Number, Tree};
use crate::double::laws::{lemma_near, size_of, unit, whole_numbers_have_codes};
use crate::double::parse::{parsed_double, parsed_is_finite};
use crate::double::{rounding, Double, BINADE, INFINITY_CODE};
use crate::text::parsed_integer;
use vstd::arithmetic::div_mod::*;
use vstd::arithmetic::power2::*;
use vstd::prelude::*;

verus! {

/// A member is found by its name, the first where there are more, and nothing by a name
/// that no member has.
pub proof fn members_are_found(members: Seq<(Seq<char>, Tree)>, name: Seq<char>, at: int)
    requires
        0 <= at <= members.len(),
        forall|i: int| 0 <= i < at ==> (#[trigger] members[i]).0 != name,
        at < members.len() ==> members[at].0 == name,
    ensures
        at < members.len() ==> Tree::Object(members).field(name) == Some(members[at].1),
        at == members.len() ==> Tree::Object(members).field(name) is None,
    decreases members.len(),
{
    if members.len() > 0 && at > 0 {
        let rest = members.drop_first();
        assert(members[0].0 != name);
        assert forall|i: int| 0 <= i < at - 1 implies (#[trigger] rest[i]).0 != name by {
            assert(rest[i] == members[i + 1]);
        }
        members_are_found(rest, name, at - 1);
        assert(Tree::Object(rest).field(name) == member_named(rest, name));
    }
}

/// Only an object has members, and only a list has items.
pub proof fn only_objects_have_members(tree: Tree, name: Seq<char>)
    ensures
        !(tree is Object) ==> tree.field(name) is None && tree.members().len() == 0,
        !(tree is List) ==> tree.items().len() == 0,
        tree.field(name) is None ==> tree.number_at(name) is None && tree.integer_at(name) is None
            && tree.text_at(name) is None && tree.items_at(name).len() == 0,
        tree.field(name) matches Some(member) ==> {
            &&& tree.number_at(name) == member.number()
            &&& tree.integer_at(name) == member.integer()
            &&& tree.text_at(name) == member.text()
            &&& tree.items_at(name) == member.items()
        },
{
}

/// A number is read of a number, which is finite, or of a text that says one, and of
/// nothing else; a text only of a text.
pub proof fn numbers_are_read(tree: Tree)
    ensures
        tree.number() matches Some(x) ==> x.finite(),
        tree matches Tree::Number(n) ==> {
            &&& n.float is Some && n.float->0.finite() ==> tree.number() == n.float
            &&& n.float is Some && !n.float->0.finite() ==> tree.number() is None
            &&& tree.text() is None
        },
        tree matches Tree::Text(s) ==> tree.number() == parsed_double(s) && tree.integer()
            == parsed_integer(s) && tree.text() == Some(s),
        tree is Null || tree is Bool || tree is List || tree is Object ==> tree.number() is None
            && tree.integer() is None && tree.text() is None,
{
    if let Tree::Text(s) = tree {
        parsed_is_finite(s);
    }
}

/// An integer is read exactly where there is one of 64 bits, with its bits where it has
/// no sign, and else of a number without its fraction.
pub proof fn integers_are_read(n: Number)
    ensures
        n.signed matches Some(k) ==> Tree::Number(n).integer() == Some(k as int),
        n.signed is None && n.unsigned is Some && n.unsigned->0 <= i64::MAX ==> Tree::Number(
            n,
        ).integer() == Some(n.unsigned->0 as int),
        n.signed is None && n.unsigned is Some ==> (Tree::Number(n).integer()->0
            - n.unsigned->0) % 0x1_0000_0000_0000_0000 == 0 && i64::MIN <= Tree::Number(
            n,
        ).integer()->0 <= i64::MAX,
        n.signed is None && n.unsigned is None && n.float is Some && n.float->0.finite()
            && size_of(n.float->0.value()) < 0x7fff_ffff_ffff_ffff * unit() ==> {
            let k = Tree::Number(n).integer()->0;
            let v = n.float->0.value();
            &&& Tree::Number(n).integer() is Some
            &&& v >= 0 ==> k * unit() <= v < (k + 1) * unit()
            &&& v <= 0 ==> (k - 1) * unit() < v <= k * unit()
        },
{
    if n.float is Some && n.float->0.finite() && size_of(n.float->0.value())
        < 0x7fff_ffff_ffff_ffff * unit() {
        whole_is_cut_off(n.float->0);
    }
}

/// The whole of a number is cut off towards zero, the nearest whole number at most half
/// a one away.
pub proof fn whole_is_cut_off(x: Double)
    requires
        x.finite(),
        size_of(x.value()) < 0x7fff_ffff_ffff_ffff * unit(),
    ensures
        x.value() >= 0 ==> x.whole() * unit() <= x.value() < (x.whole() + 1) * unit(),
        x.value() <= 0 ==> (x.whole() - 1) * unit() < x.value() <= x.whole() * unit(),
        2 * size_of(x.nearest_whole() * unit() - x.value()) <= unit(),
{
    let u = unit();
    lemma_pow2_pos(crate::double::arithmetic::UNIT_EXPONENT as nat);
    rounding::lemma_magnitude_step(x.code());
    let m = Double::magnitude(x.code());
    let k = m / u;
    lemma_fundamental_div_mod(m, u);
    lemma_div_pos_is_pos(m, u);
    assert(u * k == k * u && (k + 1) * u == k * u + u && (-k) * u == -(k * u) && (-k - 1) * u == -(
    k * u) - u && (k - 1) * u == k * u - u && (-k + 1) * u == -(k * u) + u) by (nonlinear_arith);
    assert(0 <= k < 0x7fff_ffff_ffff_ffff) by (nonlinear_arith)
        requires
            0 <= k,
            k * u <= m,
            m < 0x7fff_ffff_ffff_ffff * u,
            u > 0,
    ;
    let n = (2 * m + u) / (2 * u);
    lemma_fundamental_div_mod(2 * m + u, 2 * u);
    lemma_div_pos_is_pos(2 * m + u, 2 * u);
    assert(2 * u * n == 2 * (n * u) && (-n) * u == -(n * u)) by (nonlinear_arith);
    assert(n <= 0x7fff_ffff_ffff_ffff) by (nonlinear_arith)
        requires
            2 * (n * u) <= 2 * m + u,
            m < 0x7fff_ffff_ffff_ffff * u,
            u > 0,
    ;
}

/// A whole number is turned into the nearest number, and exactly below `2^53`.
pub proof fn integers_become_numbers(n: int)
    requires
        i64::MIN <= n <= u64::MAX,
    ensures
        Double::of_integer(n).finite(),
        2 * size_of(Double::of_integer(n).value() - n * unit()) <= Double::of_integer(n).gap(),
        size_of(n) < 2 * BINADE ==> Double::of_integer(n).value() == n * unit(),
{
    let u = unit();
    lemma_pow2_pos(crate::double::arithmetic::UNIT_EXPONENT as nat);
    let size = size_of(n);
    let m = size * u;
    assert(m >= 0) by (nonlinear_arith)
        requires
            m == size * u,
            size >= 0,
            u > 0,
    ;
    assert((-size) * u == -(size * u)) by (nonlinear_arith);
    rounding::nearest_code_exists(m, 1);
    let top = lemma_top();
    assert(m * 1 <= Double::magnitude(top) * 1) by (nonlinear_arith)
        requires
            m == size * u,
            size <= 0x1_0000_0000_0000_0000,
            Double::magnitude(top) == 0x1_0000_0000_0000_0000 * u,
            u > 0,
    ;
    rounding::lemma_nearest_exact(Double::magnitude(top), 1, top);
    crate::double::ordering::lemma_nearest_grows(m, 1, Double::magnitude(top), 1);
    lemma_near(m, 1);
    let code = Double::nearest_code(m, 1);
    let x = Double::assembled(n < 0, code);
    assert(x.code() == code && x.negative() == (n < 0));
    if size < 2 * BINADE {
        let exact = whole_numbers_have_codes(size);
        assert(m == Double::magnitude(exact) * 1);
        rounding::lemma_nearest_exact(m, 1, exact);
    }
}

/// The code of two to the power of 64.
proof fn lemma_top() -> (code: int)
    ensures
        0 <= code < INFINITY_CODE,
        Double::magnitude(code) == 0x1_0000_0000_0000_0000 * unit(),
{
    lemma2_to64();
    rounding::lemma_powers();
    rounding::lemma_magnitude_of(1086, BINADE as int);
    lemma_pow2_adds(52, 1086);
    lemma_pow2_adds(64, 1074);
    assert(BINADE * pow2(1086) == pow2(64) * pow2(1074));
    1086 * BINADE + BINADE
}

} // verus!
