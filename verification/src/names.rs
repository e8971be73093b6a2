use vstd::prelude::*;
use vstd::utf8::*;

verus! {

/// `a` and `b` agree on their first `k` bytes, and after them `a` has ended
/// while `b` goes on, or `a` holds the smaller byte.
pub open spec fn bytes_part_at(a: Seq<u8>, b: Seq<u8>, k: int) -> bool {
    &&& 0 <= k <= a.len()
    &&& k < b.len()
    &&& forall|j: int| 0 <= j < k ==> a[j] == b[j]
    &&& k < a.len() ==> a[k] < b[k]
}

/// Lexicographic order on byte strings.
pub open spec fn bytes_lt(a: Seq<u8>, b: Seq<u8>) -> bool {
    exists|k: int| bytes_part_at(a, b, k)
}

/// The order of names: that of their UTF-8 encodings, byte by byte. It is the
/// order in which the children of a node are kept and visited.
pub open spec fn name_lt(a: Seq<char>, b: Seq<char>) -> bool {
    bytes_lt(encode_utf8(a), encode_utf8(b))
}

/// What comes before a byte string that comes before a third comes before the
/// third.
pub proof fn lemma_bytes_lt_transitive(a: Seq<u8>, b: Seq<u8>, c: Seq<u8>)
    requires
        bytes_lt(a, b),
        bytes_lt(b, c),
    ensures
        bytes_lt(a, c),
{
    let k1 = choose|k: int| bytes_part_at(a, b, k);
    let k2 = choose|k: int| bytes_part_at(b, c, k);
    let k = if k1 <= k2 { k1 } else { k2 };
    assert(bytes_part_at(a, c, k));
}

/// Two byte strings are equal or one comes before the other.
pub proof fn lemma_bytes_lt_total(a: Seq<u8>, b: Seq<u8>)
    ensures
        a == b || bytes_lt(a, b) || bytes_lt(b, a),
{
    if a != b {
        lemma_first_difference(a, b, 0);
    }
}

proof fn lemma_first_difference(a: Seq<u8>, b: Seq<u8>, k: int)
    requires
        0 <= k <= a.len(),
        k <= b.len(),
        forall|j: int| 0 <= j < k ==> a[j] == b[j],
        a != b,
    ensures
        bytes_lt(a, b) || bytes_lt(b, a),
    decreases a.len() - k,
{
    if k == a.len() {
        if k == b.len() {
            assert(a =~= b);
        } else {
            assert(bytes_part_at(a, b, k));
        }
    } else if k == b.len() {
        assert(bytes_part_at(b, a, k));
    } else if a[k] < b[k] {
        assert(bytes_part_at(a, b, k));
    } else if b[k] < a[k] {
        assert(bytes_part_at(b, a, k));
    } else {
        lemma_first_difference(a, b, k + 1);
    }
}

/// No name comes before itself.
pub proof fn lemma_name_lt_irreflexive(a: Seq<char>)
    ensures
        !name_lt(a, a),
{
}

/// Of two names at most one comes before the other.
pub proof fn lemma_name_lt_asymmetric(a: Seq<char>, b: Seq<char>)
    requires
        name_lt(a, b),
    ensures
        !name_lt(b, a),
{
    if name_lt(b, a) {
        lemma_bytes_lt_transitive(encode_utf8(a), encode_utf8(b), encode_utf8(a));
    }
}

/// A name that comes before a name that comes before a third comes before the
/// third.
pub proof fn lemma_name_lt_transitive(a: Seq<char>, b: Seq<char>, c: Seq<char>)
    requires
        name_lt(a, b),
        name_lt(b, c),
    ensures
        name_lt(a, c),
{
    lemma_bytes_lt_transitive(encode_utf8(a), encode_utf8(b), encode_utf8(c));
}

/// Names with the same encoding are the same name.
pub proof fn lemma_encoding_injective(a: Seq<char>, b: Seq<char>)
    requires
        encode_utf8(a) == encode_utf8(b),
    ensures
        a == b,
{
    encode_utf8_decode_utf8(a);
    encode_utf8_decode_utf8(b);
}

/// Two names are equal or one comes before the other.
pub proof fn lemma_name_lt_total(a: Seq<char>, b: Seq<char>)
    ensures
        a == b || name_lt(a, b) || name_lt(b, a),
{
    lemma_bytes_lt_total(encode_utf8(a), encode_utf8(b));
    if encode_utf8(a) == encode_utf8(b) {
        lemma_encoding_injective(a, b);
    }
}

/// How one name stands to another.
#[derive(Clone, Copy, Debug, PartialEq, Eq)]
pub enum NameOrder {
    Before,
    Same,
    After,
}

/// Compares two names byte by byte.
pub fn order_of(a: &str, b: &str) -> (r: NameOrder)
    ensures
        r == NameOrder::Before <==> name_lt(a@, b@),
        r == NameOrder::Same <==> a@ == b@,
        r == NameOrder::After <==> name_lt(b@, a@),
{
    let x = a.as_bytes();
    let y = b.as_bytes();
    proof {
        lemma_name_lt_irreflexive(a@);
        if name_lt(a@, b@) {
            lemma_name_lt_asymmetric(a@, b@);
        }
        if name_lt(b@, a@) {
            lemma_name_lt_asymmetric(b@, a@);
        }
    }
    let mut i: usize = 0;
    while i < x.len() && i < y.len()
        invariant
            i <= x@.len(),
            i <= y@.len(),
            x@ == encode_utf8(a@),
            y@ == encode_utf8(b@),
            forall|j: int| 0 <= j < i ==> x@[j] == y@[j],
        decreases x@.len() - i,
    {
        if x[i] < y[i] {
            assert(bytes_part_at(x@, y@, i as int));
            return NameOrder::Before;
        }
        if x[i] > y[i] {
            assert(bytes_part_at(y@, x@, i as int));
            return NameOrder::After;
        }
        i = i + 1;
    }
    if i < y.len() {
        assert(bytes_part_at(x@, y@, i as int));
        NameOrder::Before
    } else if i < x.len() {
        assert(bytes_part_at(y@, x@, i as int));
        NameOrder::After
    } else {
        proof {
            assert(x@ =~= y@);
            lemma_encoding_injective(a@, b@);
        }
        NameOrder::Same
    }
}

/// The character that stands for `'.'` in a node name.
pub open spec fn plain_char(c: char) -> char {
    if c == '.' {
        '_'
    } else {
        c
    }
}

/// A content name with every `'.'` replaced by `'_'`: the form in which a name
/// enters the registry and a path. A name made by a tree holds no `'.'`, so it
/// is one segment wherever a path is written out, and no part of it reads as
/// the extension of a file name.
pub open spec fn normalized(name: Seq<char>) -> Seq<char> {
    name.map_values(|c: char| plain_char(c))
}

/// `name` holds no `'.'`.
pub open spec fn dot_free(name: Seq<char>) -> bool {
    forall|i: int| 0 <= i < name.len() ==> name[i] != '.'
}

/// `String::push`, which appends one character to the string.
#[verifier::external_body]
fn push_char(s: &mut String, c: char)
    ensures
        final(s)@ == old(s)@.push(c),
{
    s.push(c)
}

/// The normal form of a content name.
pub fn normalize(name: &str) -> (r: String)
    ensures
        r@ == normalized(name@),
{
    let mut r = String::new();
    for c in it: name.chars()
        invariant
            it.seq() == name@,
            r@ == normalized(name@.take(it.index() as int)),
    {
        proof {
            let k = it.index() as int;
            assert(name@.take(k + 1) =~= name@.take(k).push(name@[k]));
            assert(normalized(name@.take(k + 1)) =~= normalized(name@.take(k)).push(
                plain_char(name@[k]),
            ));
        }
        if c == '.' {
            push_char(&mut r, '_');
        } else {
            push_char(&mut r, c);
        }
    }
    proof {
        assert(name@.take(name@.len() as int) =~= name@);
    }
    r
}

/// A normal form holds no `'.'`, and is as long as the name it was made from.
pub proof fn lemma_normalized_dot_free(name: Seq<char>)
    ensures
        dot_free(normalized(name)),
        normalized(name).len() == name.len(),
{
}

/// A name without a `'.'` is its own normal form.
pub proof fn lemma_normalized_idempotent(name: Seq<char>)
    ensures
        normalized(normalized(name)) == normalized(name),
        dot_free(name) ==> normalized(name) == name,
{
    assert(normalized(normalized(name)) =~= normalized(name));
    if dot_free(name) {
        assert(normalized(name) =~= name);
    }
}

/// The character of a decimal digit.
pub open spec fn digit_char(d: nat) -> char {
    if d == 0 {
        '0'
    } else if d == 1 {
        '1'
    } else if d == 2 {
        '2'
    } else if d == 3 {
        '3'
    } else if d == 4 {
        '4'
    } else if d == 5 {
        '5'
    } else if d == 6 {
        '6'
    } else if d == 7 {
        '7'
    } else if d == 8 {
        '8'
    } else {
        '9'
    }
}

/// The decimal digits of `n`, without leading zeros.
pub open spec fn decimal(n: nat) -> Seq<char>
    decreases n,
{
    if n < 10 {
        seq![digit_char(n)]
    } else {
        decimal(n / 10).push(digit_char(n % 10))
    }
}

/// The number that a string of decimal digits stands for.
pub open spec fn decimal_value(digits: Seq<char>) -> nat
    decreases digits.len(),
{
    if digits.len() == 0 {
        0
    } else {
        10 * decimal_value(digits.drop_last()) + (digits.last() as nat - '0' as nat) as nat
    }
}

/// Reading the decimal digits of a number gives the number back.
pub proof fn lemma_decimal_value(n: nat)
    ensures
        decimal_value(decimal(n)) == n,
        decimal(n).len() >= 1,
        dot_free(decimal(n)),
        forall|i: int| 0 <= i < decimal(n).len() ==> decimal(n)[i] != '_',
    decreases n,
{
    if n < 10 {
        assert(decimal(n).drop_last() =~= Seq::<char>::empty());
        assert(decimal_value(Seq::<char>::empty()) == 0);
    } else {
        lemma_decimal_value(n / 10);
        assert(decimal(n).drop_last() =~= decimal(n / 10));
    }
}

/// Different numbers have different decimal digits.
pub proof fn lemma_decimal_injective(a: nat, b: nat)
    requires
        decimal(a) == decimal(b),
    ensures
        a == b,
{
    lemma_decimal_value(a);
    lemma_decimal_value(b);
}

fn digit_of(d: usize) -> (c: char)
    requires
        d < 10,
    ensures
        c == digit_char(d as nat),
{
    if d == 0 {
        '0'
    } else if d == 1 {
        '1'
    } else if d == 2 {
        '2'
    } else if d == 3 {
        '3'
    } else if d == 4 {
        '4'
    } else if d == 5 {
        '5'
    } else if d == 6 {
        '6'
    } else if d == 7 {
        '7'
    } else if d == 8 {
        '8'
    } else {
        '9'
    }
}

/// Appends the decimal digits of `n` to `s`.
pub fn push_decimal(s: &mut String, n: usize)
    ensures
        final(s)@ == old(s)@ + decimal(n as nat),
    decreases n,
{
    if n < 10 {
        push_char(s, digit_of(n));
        assert(s@ =~= old(s)@ + decimal(n as nat));
    } else {
        push_decimal(s, n / 10);
        push_char(s, digit_of(n % 10));
        assert(s@ =~= old(s)@ + decimal(n as nat));
    }
}

/// The `k`-th numbered variant of `base`: `base`, an underscore and the decimal
/// digits of `k`.
pub open spec fn numbered(base: Seq<char>, k: nat) -> Seq<char> {
    base + seq!['_'] + decimal(k)
}

/// Builds the `k`-th numbered variant of `base`.
pub fn with_number(base: &str, k: usize) -> (r: String)
    ensures
        r@ == numbered(base@, k as nat),
{
    let mut r = String::from_str(base);
    push_char(&mut r, '_');
    push_decimal(&mut r, k);
    assert(r@ =~= numbered(base@, k as nat));
    r
}

/// The numbered variants of one base are all different, and none is the base.
pub proof fn lemma_numbered_injective(base: Seq<char>, j: nat, k: nat)
    ensures
        numbered(base, j) != base,
        numbered(base, j) == numbered(base, k) ==> j == k,
{
    assert(numbered(base, j).len() == base.len() + 1 + decimal(j).len());
    if numbered(base, j) == numbered(base, k) {
        let n = base.len() + 1;
        assert(numbered(base, j).skip(n as int) =~= decimal(j));
        assert(numbered(base, k).skip(n as int) =~= decimal(k));
        lemma_decimal_injective(j, k);
    }
}

/// A numbered variant of a name without a `'.'` holds none either.
pub proof fn lemma_numbered_dot_free(base: Seq<char>, k: nat)
    requires
        dot_free(base),
    ensures
        dot_free(numbered(base, k)),
{
    lemma_decimal_value(k);
}

} // verus!
