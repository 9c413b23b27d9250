//! The order of byte strings and of texts.
use vstd::prelude::*;
use vstd::utf8::encode_utf8;

verus! {

/// Whether `a` comes before `b` because of index `i`: they agree before it, and there `a` ends
/// or has the smaller byte.
pub open spec fn less_at(a: Seq<u8>, b: Seq<u8>, i: int) -> bool {
    &&& 0 <= i <= a.len()
    &&& i < b.len()
    &&& forall|j: int| 0 <= j < i ==> #[trigger] a[j] == b[j]
    &&& i == a.len() || a[i] < b[i]
}

/// Whether `a` comes before `b`, byte by byte.
pub open spec fn bytes_less(a: Seq<u8>, b: Seq<u8>) -> bool {
    exists|i: int| #[trigger] less_at(a, b, i)
}

/// Whether one text comes before another. Texts are ordered by the bytes of their UTF-8 form.
pub open spec fn text_less(a: Seq<char>, b: Seq<char>) -> bool {
    bytes_less(encode_utf8(a), encode_utf8(b))
}

/// How two values stand to each other.
#[derive(Clone, Copy, Debug, PartialEq, Eq, Structural)]
pub enum Order {
    Before,
    Same,
    After,
}

/// What an order says of two values, given whether each comes before the other.
pub open spec fn ordered(order: Order, less: bool, greater: bool) -> bool {
    match order {
        Order::Before => less && !greater,
        Order::After => greater && !less,
        Order::Same => !less && !greater,
    }
}

/// No two byte strings come before each other.
pub proof fn lemma_bytes_asymmetric(a: Seq<u8>, b: Seq<u8>)
    requires
        bytes_less(a, b),
    ensures
        !bytes_less(b, a),
        a != b,
{
    let i = choose|i: int| #[trigger] less_at(a, b, i);
    if a == b {
        assert(i < a.len());
        assert(false);
    }
    if bytes_less(b, a) {
        let k = choose|k: int| #[trigger] less_at(b, a, k);
        if i < k {
            assert(b[i] == a[i]);
        } else if k < i {
            assert(a[k] == b[k]);
        }
        assert(false);
    }
}

/// Of two different byte strings one comes before the other.
pub proof fn lemma_bytes_total(a: Seq<u8>, b: Seq<u8>, i: int)
    requires
        0 <= i <= a.len(),
        i <= b.len(),
        a != b,
        forall|j: int| 0 <= j < i ==> #[trigger] a[j] == b[j],
    ensures
        bytes_less(a, b) || bytes_less(b, a),
    decreases a.len() - i,
{
    if i == a.len() {
        if i < b.len() {
            assert(less_at(a, b, i));
        } else {
            assert(a =~= b);
        }
    } else if i == b.len() {
        assert(less_at(b, a, i));
    } else if a[i] < b[i] {
        assert(less_at(a, b, i));
    } else if b[i] < a[i] {
        assert(less_at(b, a, i));
    } else {
        lemma_bytes_total(a, b, i + 1);
    }
}

/// What comes before something comes before all that follows it.
pub proof fn lemma_bytes_transitive(a: Seq<u8>, b: Seq<u8>, c: Seq<u8>)
    requires
        bytes_less(a, b),
        bytes_less(b, c),
    ensures
        bytes_less(a, c),
{
    let i = choose|i: int| #[trigger] less_at(a, b, i);
    let k = choose|k: int| #[trigger] less_at(b, c, k);
    let m = if i <= k {
        i
    } else {
        k
    };
    assert forall|j: int| 0 <= j < m implies #[trigger] a[j] == c[j] by {
        assert(a[j] == b[j]);
        assert(b[j] == c[j]);
    }
    if i < k {
        assert(b[i] == c[i]);
    } else if k < i {
        assert(a[k] == b[k]);
    }
    assert(less_at(a, c, m));
}

/// The order of two byte strings.
pub fn order_bytes(a: &[u8], b: &[u8]) -> (order: Order)
    ensures
        ordered(order, bytes_less(a@, b@), bytes_less(b@, a@)),
        order is Same <==> a@ == b@,
{
    let mut i: usize = 0;
    while i < a.len() && i < b.len()
        invariant
            i <= a@.len(),
            i <= b@.len(),
            forall|j: int| 0 <= j < i ==> #[trigger] a@[j] == b@[j],
        decreases a@.len() - i,
    {
        if a[i] < b[i] {
            proof {
                assert(less_at(a@, b@, i as int));
                lemma_bytes_asymmetric(a@, b@);
            }
            return Order::Before;
        }
        if a[i] > b[i] {
            proof {
                assert(less_at(b@, a@, i as int));
                lemma_bytes_asymmetric(b@, a@);
            }
            return Order::After;
        }
        i = i + 1;
    }
    if i < b.len() {
        proof {
            assert(less_at(a@, b@, i as int));
            lemma_bytes_asymmetric(a@, b@);
        }
        return Order::Before;
    }
    if i < a.len() {
        proof {
            assert(less_at(b@, a@, i as int));
            lemma_bytes_asymmetric(b@, a@);
        }
        return Order::After;
    }
    proof {
        assert(a@ =~= b@);
        if bytes_less(a@, b@) {
            lemma_bytes_asymmetric(a@, b@);
        }
    }
    Order::Same
}

/// The UTF-8 form of a text determines it.
pub proof fn lemma_text_of_bytes(a: Seq<char>, b: Seq<char>)
    requires
        encode_utf8(a) == encode_utf8(b),
    ensures
        a == b,
{
    vstd::utf8::encode_utf8_decode_utf8(a);
    vstd::utf8::encode_utf8_decode_utf8(b);
}

/// The order of texts is total: of two different texts exactly one comes before the other.
pub proof fn lemma_text_order(a: Seq<char>, b: Seq<char>)
    ensures
        text_less(a, b) ==> !text_less(b, a) && a != b,
        a != b ==> text_less(a, b) || text_less(b, a),
{
    if text_less(a, b) {
        lemma_bytes_asymmetric(encode_utf8(a), encode_utf8(b));
    }
    if a != b {
        if encode_utf8(a) == encode_utf8(b) {
            lemma_text_of_bytes(a, b);
        }
        lemma_bytes_total(encode_utf8(a), encode_utf8(b), 0);
    }
}

/// The order of texts is transitive.
pub proof fn lemma_text_transitive(a: Seq<char>, b: Seq<char>, c: Seq<char>)
    requires
        text_less(a, b),
        text_less(b, c),
    ensures
        text_less(a, c),
{
    lemma_bytes_transitive(encode_utf8(a), encode_utf8(b), encode_utf8(c));
}

/// The order of two texts.
pub fn order_text(a: &str, b: &str) -> (order: Order)
    ensures
        ordered(order, text_less(a@, b@), text_less(b@, a@)),
        order is Same <==> a@ == b@,
{
    let order = order_bytes(a.as_bytes(), b.as_bytes());
    proof {
        if order is Same {
            lemma_text_of_bytes(a@, b@);
        }
    }
    order
}

/// The first byte in which two byte strings differ decides which comes first.
pub proof fn law_first_difference_decides(
    front: Seq<u8>,
    low: u8,
    high: u8,
    one: Seq<u8>,
    other: Seq<u8>,
)
    requires
        low < high,
    ensures
        bytes_less(front + seq![low] + one, front + seq![high] + other),
        !bytes_less(front + seq![high] + other, front + seq![low] + one),
{
    let a = front + seq![low] + one;
    let b = front + seq![high] + other;
    assert(less_at(a, b, front.len() as int));
    lemma_bytes_asymmetric(a, b);
}

/// A text comes before every longer text that starts with it.
pub proof fn law_a_start_comes_first(text: Seq<char>, more: Seq<char>)
    requires
        more.len() > 0,
    ensures
        text_less(text, text + more),
        !text_less(text + more, text),
{
    let a = encode_utf8(text);
    let b = encode_utf8(text + more);
    lemma_encoding_grows(text, more);
    let c = encode_utf8(more);
    assert(c.len() > 0);
    assert(less_at(a, b, a.len() as int));
    lemma_bytes_asymmetric(a, b);
}

proof fn lemma_encoding_grows(text: Seq<char>, more: Seq<char>)
    ensures
        encode_utf8(text + more) == encode_utf8(text) + encode_utf8(more),
        more.len() > 0 ==> encode_utf8(more).len() > 0,
    decreases text.len(),
{
    if text.len() == 0 {
        assert(text + more =~= more);
        assert(encode_utf8(text) =~= Seq::empty());
        assert(encode_utf8(text) + encode_utf8(more) =~= encode_utf8(more));
    } else {
        lemma_encoding_grows(text.drop_first(), more);
        assert((text + more).drop_first() =~= text.drop_first() + more);
        assert((text + more)[0] == text[0]);
        assert(encode_utf8(text + more) =~= encode_utf8(text) + encode_utf8(more));
    }
}

} // verus!
