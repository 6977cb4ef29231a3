//! What a reader of the plain list finds in it.

use crate::cli::run;
use crate::proto::types::ResultItem;
use crate::text;
use crate::wtf8;
use vstd::prelude::*;
use vstd::utf8::*;

verus! {

/// Where the line that ends at `n` begins: behind the line feed before it.
pub open spec fn line_start(bytes: Seq<u8>, n: int) -> int
    decreases n,
{
    if n <= 0 || bytes[n - 1] == 0x0A {
        n
    } else {
        line_start(bytes, n - 1)
    }
}

/// The lines of a text of which every line ends in a line feed.
pub open spec fn lines(bytes: Seq<u8>) -> Seq<Seq<u8>>
    decreases bytes.len(),
{
    if bytes.len() == 0 {
        seq![]
    } else {
        let n = bytes.len() - 1;
        let at = line_start(bytes, n);
        if 0 <= at <= n {
            lines(bytes.subrange(0, at)).push(bytes.subrange(at, n))
        } else {
            seq![]
        }
    }
}

proof fn lemma_line_start(bytes: Seq<u8>, at: int, n: int)
    requires
        0 <= at <= n <= bytes.len(),
        at > 0 ==> bytes[at - 1] == 0x0A,
        forall|k: int| at <= k < n ==> bytes[k] != 0x0A,
    ensures
        line_start(bytes, n) == at,
    decreases n,
{
    if at < n {
        lemma_line_start(bytes, at, n - 1);
    }
}

/// Only the line feed is spelled with its byte.
proof fn lemma_feed(c: char)
    requires
        c != '\n',
    ensures
        forall|k: int|
            0 <= k < wtf8::cp_bytes(c as u32).len() ==> #[trigger] wtf8::cp_bytes(c as u32)[k] != 0x0A,
{
    lemma_feed_point(c);
}

proof fn lemma_feed_point(c: char)
    ensures
        c as u32 == 0x0A <==> c == '\n',
{
}

/// A text without a line feed has none among its bytes.
proof fn lemma_no_feed(chars: Seq<char>)
    requires
        forall|k: int| 0 <= k < chars.len() ==> #[trigger] chars[k] != '\n',
    ensures
        forall|k: int| 0 <= k < encode_utf8(chars).len() ==> encode_utf8(chars)[k] != 0x0A,
    decreases chars.len(),
{
    if chars.len() > 0 {
        let rest = chars.drop_first();
        assert forall|k: int| 0 <= k < rest.len() implies #[trigger] rest[k] != '\n' by {
            assert(rest[k] == chars[k + 1]);
        }
        lemma_no_feed(rest);
        char_is_scalar(chars[0]);
        text::lemma_scalar_bytes(chars[0] as u32);
        let first = encode_scalar(chars[0] as u32);
        assert(chars[0] != '\n');
        lemma_feed(chars[0]);
        assert(first == wtf8::cp_bytes(chars[0] as u32));
        assert forall|k: int| 0 <= k < encode_utf8(chars).len() implies encode_utf8(chars)[k]
            != 0x0A by {
            if k < first.len() {
                assert(encode_utf8(chars)[k] == first[k]);
            } else {
                assert(encode_utf8(chars)[k] == encode_utf8(rest)[k - first.len()]);
            }
        }
    }
}

/// The list ends in a line feed.
proof fn lemma_list_end(items: Seq<ResultItem>)
    ensures
        run::list_bytes(items).len() > 0 ==> run::list_bytes(items).last() == 0x0A,
{
}

/// The list of some results and further ones is the list of the former and
/// then that of the latter, and the list of one result is its path and a line
/// feed, whatever else is known of it.
pub proof fn law_list_goes_result_by_result(
    a: Seq<ResultItem>,
    b: Seq<ResultItem>,
    item: ResultItem,
)
    ensures
        run::list_bytes(a + b) == run::list_bytes(a) + run::list_bytes(b),
        run::list_bytes(seq![item]) == encode_utf8(item.path@).push(0x0A),
        run::list_bytes(Seq::empty()) == Seq::<u8>::empty(),
    decreases b.len(),
{
    reveal_with_fuel(run::list_bytes, 2);
    assert(seq![item].drop_last() =~= Seq::<ResultItem>::empty());
    assert(run::list_bytes(seq![item]) =~= encode_utf8(item.path@).push(0x0A));
    if b.len() == 0 {
        assert(a + b =~= a);
        assert(run::list_bytes(a) + run::list_bytes(b) =~= run::list_bytes(a));
    } else {
        law_list_goes_result_by_result(a, b.drop_last(), item);
        assert((a + b).drop_last() =~= a + b.drop_last());
        assert((a + b).last() == b.last());
        assert(run::list_bytes(a + b) =~= run::list_bytes(a) + run::list_bytes(b));
    }
}

/// The list has one line for each result, files and folders alike, in order:
/// its path. Paths hold no line feed.
pub proof fn law_one_line_per_result(items: Seq<ResultItem>)
    requires
        forall|k: int, j: int|
            0 <= k < items.len() && 0 <= j < items[k].path@.len() ==> (
            #[trigger] items[k].path@[j]) != '\n',
    ensures
        lines(run::list_bytes(items)).len() == items.len(),
        forall|k: int|
            0 <= k < items.len() ==> #[trigger] lines(run::list_bytes(items))[k] == encode_utf8(
                items[k].path@,
            ),
    decreases items.len(),
{
    if items.len() > 0 {
        let before = items.drop_last();
        assert forall|k: int, j: int|
            0 <= k < before.len() && 0 <= j < before[k].path@.len() implies (
        #[trigger] before[k].path@[j]) != '\n' by {
            assert(items[k].path@[j] != '\n');
        }
        law_one_line_per_result(before);
        let last = items.last();
        assert forall|j: int| 0 <= j < last.path@.len() implies #[trigger] last.path@[j]
            != '\n' by {
            assert(items[items.len() - 1].path@[j] != '\n');
        }
        lemma_no_feed(last.path@);
        lemma_list_end(before);
        let front = run::list_bytes(before);
        let path = encode_utf8(last.path@);
        let all = run::list_bytes(items);
        let n = all.len() - 1;
        assert(all =~= front + path + seq![0x0Au8]);
        assert forall|k: int| front.len() <= k < n implies all[k] != 0x0A by {
            assert(all[k] == path[k - front.len()]);
        }
        lemma_line_start(all, front.len() as int, n);
        assert(all.subrange(0, front.len() as int) =~= front);
        assert(all.subrange(front.len() as int, n) =~= path);
    }
}

} // verus!
