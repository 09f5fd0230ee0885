//! Laws of function bodies.

use crate::stream::{
    after_reads, body_items, depth_after, depth_after_reads, head, lemma_after, lemma_after_adds,
    lemma_after_body, lemma_after_read, lemma_body_items_len, runs_out, FuncTokens, Items,
    StreamSpec, TokenStream,
};
use crate::syntax::TokenSpec;
use vstd::prelude::*;

verus! {

/// By how much the left brackets outnumber the right brackets among the first
/// `count` items.
pub open spec fn balance(items: Items, count: int) -> int
    decreases count,
{
    if count <= 0 || items.len() == 0 {
        0
    } else {
        balance(items.drop_first(), count - 1) + match items[0] {
            Some(TokenSpec::LeftBracket) => 1,
            Some(TokenSpec::RightBracket) => -1,
            _ => 0int,
        }
    }
}

/// Whether the first unbalanced right bracket stands at `at`, where `depth`
/// brackets are open in front.
pub open spec fn closes_at(items: Items, depth: nat, at: int) -> bool {
    &&& 0 <= at < items.len()
    &&& forall|i: int| 0 <= i <= at ==> #[trigger] balance(items, i) + depth >= 0
    &&& balance(items, at + 1) + depth < 0
}

/// Whether no right bracket is unbalanced, where `depth` brackets are open in
/// front.
pub open spec fn never_closes(items: Items, depth: nat) -> bool {
    forall|i: int| 0 <= i <= items.len() ==> #[trigger] balance(items, i) + depth >= 0
}

/// A function body ends at the first unbalanced right bracket: the tokens in
/// front of it are the body's, and in its place there is none.
pub proof fn law_body_stops(items: Items, depth: nat, at: int)
    requires
        closes_at(items, depth, at),
    ensures
        items[at] == Some(TokenSpec::RightBracket),
        body_items(items, depth).len() == items.len(),
        body_items(items, depth).take(at) == items.take(at),
        body_items(items, depth)[at] is None,
    decreases items.len(),
{
    let rest = items.drop_first();
    let inner = depth_after(depth, items[0]);
    assert(balance(items, 0) == 0);
    assert(balance(rest, 0) == 0);
    lemma_body_items_len(items, depth);
    if at == 0 {
        assert(balance(items, 1) < 0);
    } else {
        assert(balance(items, 1) + depth >= 0);
        assert(inner == balance(items, 1) + depth);
        assert forall|i: int| 0 <= i <= at - 1 implies #[trigger] balance(rest, i) + inner >= 0 by {
            assert(balance(items, i + 1) + depth >= 0);
        }
        assert(balance(items, at + 1) == balance(rest, at) + balance(items, 1));
        law_body_stops(rest, inner, at - 1);
        assert(items[at] == rest[at - 1]);
        assert forall|i: int| 0 <= i < at implies body_items(items, depth)[i] == items[i] by {
            if i > 0 {
                assert(body_items(rest, inner).take(at - 1)[i - 1] == rest.take(at - 1)[i - 1]);
                assert(body_items(items, depth)[i] == body_items(rest, inner)[i - 1]);
            }
        }
        assert(body_items(items, depth).take(at) =~= items.take(at));
        assert(body_items(items, depth)[at] == body_items(rest, inner)[at - 1]);
    }
}

/// A function body in which no right bracket is unbalanced goes on to the end of
/// the stream.
pub proof fn law_body_goes_on(items: Items, depth: nat)
    requires
        never_closes(items, depth),
    ensures
        body_items(items, depth) == items,
    decreases items.len(),
{
    if items.len() > 0 {
        let rest = items.drop_first();
        let inner = depth_after(depth, items[0]);
        assert(balance(rest, 0) == 0);
        assert(balance(items, 1) + depth >= 0);
        assert forall|i: int| 0 <= i <= rest.len() implies #[trigger] balance(rest, i) + inner
            >= 0 by {
            assert(balance(items, i + 1) + depth >= 0);
        }
        law_body_goes_on(rest, inner);
        assert(body_items(items, depth) =~= items);
    } else {
        assert(body_items(items, depth) =~= items);
    }
}

/// Reads of a function body add up: `m` reads and `n` reads are `m + n` reads.
pub proof fn law_reads_add<'s, T: TokenStream<'s>>(
    first: FuncTokens<T>,
    middle: FuncTokens<T>,
    last: FuncTokens<T>,
    m: nat,
    n: nat,
)
    requires
        middle.is_after(&first, m),
        last.is_after(&middle, n),
    ensures
        last.is_after(&first, m + n),
{
    lemma_after_adds(first.stream(), m, n);
}

/// A read of a function body is a read of the stream that holds it, and counts the
/// brackets of the body: after `reads` reads so many are open, and the tokens have
/// run out if one of the reads gave none of them.
pub proof fn law_body_reads(holder: StreamSpec, depth: nat, ran_out: bool, reads: nat)
    ensures
        StreamSpec::Body(Box::new(holder), depth, ran_out).after(reads) == StreamSpec::Body(
            Box::new(holder.after(reads)),
            depth_after_reads(holder.items(), depth, reads),
            ran_out || runs_out(holder.items(), reads),
        ),
        StreamSpec::Body(Box::new(holder), depth, ran_out).after(reads).items() == after_reads(
            body_items(holder.items(), depth),
            reads,
        ),
{
    lemma_after_body(holder, depth, ran_out, reads);
    lemma_after(StreamSpec::Body(Box::new(holder), depth, ran_out), reads);
}

/// Behind its end, a stream stays as the read that met the end left it.
pub proof fn law_end_stays(stream: StreamSpec, reads: nat)
    requires
        stream.items().len() == 0,
        reads > 0,
    ensures
        stream.after(reads) == stream.after_read(),
    decreases reads,
{
    if reads > 1 {
        lemma_end_stays(stream);
        lemma_after_read(stream);
        law_end_stays(stream.after_read(), (reads - 1) as nat);
    } else {
        assert(stream.after_read().after(0) == stream.after_read());
    }
}

/// A second read behind the end of a stream changes nothing.
proof fn lemma_end_stays(stream: StreamSpec)
    requires
        stream.items().len() == 0,
    ensures
        stream.after_read().after_read() == stream.after_read(),
    decreases stream,
{
    match stream {
        StreamSpec::Source(items) => {
            assert(after_reads(items, 1) =~= items);
        },
        StreamSpec::Body(holder, depth, _) => {
            lemma_body_items_len(holder.items(), depth);
            lemma_after_read(*holder);
            lemma_end_stays(*holder);
        },
    }
}

/// Items are read one by one, from the front, and none but them.
pub proof fn law_items_read(item: Option<TokenSpec>, rest: Items, reads: nat)
    ensures
        head(seq![item] + rest) == item,
        head(Seq::empty()) is None,
        after_reads(seq![item] + rest, 0) == seq![item] + rest,
        after_reads(seq![item] + rest, reads + 1) == after_reads(rest, reads),
        after_reads(Seq::empty(), reads) == Items::empty(),
{
    let items = seq![item] + rest;
    assert(after_reads(items, 0) =~= items);
    assert(after_reads(items, reads + 1) =~= after_reads(rest, reads));
}

/// What each item of the stream that holds a body is in the body: a left bracket
/// opens one more, a right bracket closes one, or ends the body if none is open, and
/// every other item is itself.
pub proof fn law_body_item(item: Option<TokenSpec>, rest: Items, depth: nat)
    ensures
        body_items(Seq::empty(), depth) == Items::empty(),
        body_items(seq![Some(TokenSpec::LeftBracket)] + rest, depth) == seq![
            Some(TokenSpec::LeftBracket),
        ] + body_items(rest, depth + 1),
        body_items(seq![Some(TokenSpec::RightBracket)] + rest, depth + 1) == seq![
            Some(TokenSpec::RightBracket),
        ] + body_items(rest, depth),
        body_items(seq![Some(TokenSpec::RightBracket)] + rest, 0) == seq![None::<TokenSpec>]
            + body_items(rest, 0),
        item != Some(TokenSpec::LeftBracket) && item != Some(TokenSpec::RightBracket)
            ==> body_items(seq![item] + rest, depth) == seq![item] + body_items(rest, depth),
{
    assert((seq![item] + rest).drop_first() =~= rest);
    assert((seq![Some(TokenSpec::LeftBracket)] + rest).drop_first() =~= rest);
    assert((seq![Some(TokenSpec::RightBracket)] + rest).drop_first() =~= rest);
}

/// A stream that stands for itself gives its items. A body gives the items of the
/// stream that holds it as far as they are the body's. A read of a body is a read of
/// that stream, counts its brackets, and notes if there was no token to read.
pub proof fn law_stream_reads(items: Items, holder: StreamSpec, depth: nat, ran_out: bool)
    ensures
        StreamSpec::Source(items).items() == items,
        StreamSpec::Source(items).after_read() == StreamSpec::Source(after_reads(items, 1)),
        StreamSpec::Body(Box::new(holder), depth, ran_out).items() == body_items(
            holder.items(),
            depth,
        ),
        StreamSpec::Body(Box::new(holder), depth, ran_out).after_read() == StreamSpec::Body(
            Box::new(holder.after_read()),
            if holder.items().len() > 0 && holder.items()[0] == Some(TokenSpec::LeftBracket) {
                depth + 1
            } else if holder.items().len() > 0 && holder.items()[0] == Some(
                TokenSpec::RightBracket,
            ) && depth > 0 {
                (depth - 1) as nat
            } else {
                depth
            },
            ran_out || holder.items().len() == 0 || holder.items()[0] is None,
        ),
{
}

/// No read leaves a stream as it is, and one read more is a read and the others.
pub proof fn law_reads_count(stream: StreamSpec, reads: nat)
    ensures
        stream.after(0) == stream,
        stream.after(reads + 1) == stream.after_read().after(reads),
        stream.after(reads).items() == after_reads(stream.items(), reads),
{
    lemma_after(stream, reads);
}

/// A body is after some reads what those reads make of it.
pub proof fn law_is_after<'s, T: TokenStream<'s>>(
    body: FuncTokens<T>,
    before: FuncTokens<T>,
    reads: nat,
)
    ensures
        body.is_after(&before, reads) == (body.stream() == before.stream().after(reads)),
        body.items() == body.stream().items(),
{
}

}
