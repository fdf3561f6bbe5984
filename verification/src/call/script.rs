//! The transaction script of a call.

use vstd::prelude::*;

use crate::felt::{values, Felt, MODULUS};
use crate::hex::hex_digits;
use crate::number::{append_decimal, decimal, lemma_decimal_reads_back, number, NumberError};
use crate::protocol::{little_endian_text, word_text, word_to_hex, word_values};

verus! {

/// The instructions that push `args`, the last one first.
pub open spec fn pushes(args: Seq<Felt>) -> Seq<char>
    decreases args.len(),
{
    if args.len() == 0 {
        Seq::empty()
    } else {
        "    push."@ + decimal(args.last()@) + "\n"@ + pushes(args.drop_last())
    }
}

/// The script that pushes `args` and calls the procedure with the given digest. What is left below
/// the results is cut off.
pub open spec fn script_text(digest: Seq<nat>, args: Seq<Felt>) -> Seq<char> {
    "use miden::core::sys\n\n@transaction_script\npub proc main\n"@ + pushes(args) + "    call."@
        + word_text(digest) + "\n    exec.sys::truncate_stack\nend\n"@
}

/// The script that pushes `args` and calls the procedure with the given digest.
pub fn tx_script_text(digest: [u64; 4], args: &[Felt]) -> (r: String)
    requires
        forall|i: int| 0 <= i < 4 ==> #[trigger] digest@[i] < MODULUS,
    ensures
        r@ == script_text(word_values(digest@), args@),
{
    let mut script = String::from_str(
        "use miden::core::sys\n\n@transaction_script\npub proc main\n",
    );
    let ghost head = script@;
    let mut left: usize = args.len();
    assert(args@.take(left as int) =~= args@);
    while left > 0
        invariant
            left <= args@.len(),
            script@ + pushes(args@.take(left as int)) == head + pushes(args@),
        decreases left,
    {
        let ghost rest = args@.take(left as int);
        let ghost before = script@;
        assert(rest.drop_last() =~= args@.take(left - 1));
        assert(rest.last() == args@[left - 1]);
        script.append("    push.");
        append_decimal(&mut script, args[left - 1].as_canonical_u64());
        script.append("\n");
        left = left - 1;
        assert(script@ + pushes(args@.take(left as int)) =~= before + pushes(rest));
    }
    assert(script@ =~= head + pushes(args@));
    script.append("    call.");
    let text = word_to_hex(digest);
    script.append(text.as_str());
    script.append("\n    exec.sys::truncate_stack\nend\n");
    script
}

/// The lines of `text`: what stands between its line feeds.
pub open spec fn script_lines(text: Seq<char>) -> Seq<Seq<char>>
    decreases text.len(),
{
    if text.len() == 0 {
        seq![Seq::empty()]
    } else {
        let front = script_lines(text.drop_last());
        if text.last() == '\n' {
            front.push(Seq::empty())
        } else {
            front.drop_last().push(front.last().push(text.last()))
        }
    }
}

proof fn lemma_one_line(text: Seq<char>)
    requires
        !text.contains('\n'),
    ensures
        script_lines(text) == seq![text],
    decreases text.len(),
{
    if text.len() > 0 {
        let front = text.drop_last();
        assert forall|i: int| 0 <= i < front.len() implies front[i] != '\n' by {
            assert(text[i] == front[i]);
        }
        lemma_one_line(front);
        assert(text[text.len() - 1] == text.last());
        assert(front.push(text.last()) =~= text);
        assert(script_lines(text) =~= seq![text]);
    } else {
        assert(text =~= Seq::<char>::empty());
    }
}

proof fn lemma_lines_concat(a: Seq<char>, b: Seq<char>)
    ensures
        script_lines(a + seq!['\n'] + b) == script_lines(a) + script_lines(b),
        script_lines(b).len() > 0,
    decreases b.len(),
{
    let all = a + seq!['\n'] + b;
    if b.len() == 0 {
        assert(all.drop_last() =~= a);
        assert(script_lines(all) =~= script_lines(a) + script_lines(b));
    } else {
        let front = b.drop_last();
        lemma_lines_concat(a, front);
        assert(all.drop_last() =~= a + seq!['\n'] + front);
        assert(script_lines(all) =~= script_lines(a) + script_lines(b));
    }
}

proof fn lemma_line_first(line: Seq<char>, rest: Seq<char>)
    requires
        !line.contains('\n'),
    ensures
        script_lines(line + seq!['\n'] + rest) == seq![line] + script_lines(rest),
{
    lemma_one_line(line);
    lemma_lines_concat(line, rest);
}

proof fn lemma_decimal_is_a_line(n: nat, i: int)
    requires
        0 <= i < decimal(n).len(),
    ensures
        decimal(n)[i] != '\n',
    decreases n,
{
    if n >= 10 && i < decimal(n).len() - 1 {
        lemma_decimal_is_a_line(n / 10, i);
        assert(decimal(n)[i] == decimal(n / 10)[i]);
    }
}

proof fn lemma_hex_is_a_line(n: nat, width: nat, i: int)
    requires
        0 <= i < hex_digits(n, width).len(),
    ensures
        hex_digits(n, width)[i] != '\n',
    decreases width,
{
    if i < hex_digits(n, width).len() - 1 {
        lemma_hex_is_a_line(n / 16, (width - 1) as nat, i);
        assert(hex_digits(n, width)[i] == hex_digits(n / 16, (width - 1) as nat)[i]);
    }
}

proof fn lemma_bytes_are_a_line(n: nat, bytes: nat, i: int)
    requires
        0 <= i < little_endian_text(n, bytes).len(),
    ensures
        little_endian_text(n, bytes)[i] != '\n',
    decreases bytes,
{
    let first = hex_digits(n % 256, 2);
    if i < first.len() {
        lemma_hex_is_a_line(n % 256, 2, i);
    } else {
        lemma_bytes_are_a_line(n / 256, (bytes - 1) as nat, i - first.len());
    }
}

proof fn lemma_word_is_a_line(digest: Seq<nat>, i: int)
    requires
        0 <= i < word_text(digest).len(),
    ensures
        word_text(digest)[i] != '\n',
{
    let a = little_endian_text(digest[0], 8);
    let b = little_endian_text(digest[1], 8);
    let c = little_endian_text(digest[2], 8);
    let d = little_endian_text(digest[3], 8);
    if i < 2 {
    } else if i < 2 + a.len() {
        lemma_bytes_are_a_line(digest[0], 8, i - 2);
    } else if i < 2 + a.len() + b.len() {
        lemma_bytes_are_a_line(digest[1], 8, i - 2 - a.len());
    } else if i < 2 + a.len() + b.len() + c.len() {
        lemma_bytes_are_a_line(digest[2], 8, i - 2 - a.len() - b.len());
    } else {
        lemma_bytes_are_a_line(digest[3], 8, i - 2 - a.len() - b.len() - c.len());
    }
}

/// The instructions that push `args`, a line each.
spec fn push_lines(args: Seq<Felt>) -> Seq<Seq<char>> {
    Seq::new(args.len(), |k: int| "    push."@ + decimal(args[args.len() - 1 - k]@))
}

proof fn lemma_push_lines(args: Seq<Felt>, rest: Seq<char>)
    ensures
        script_lines(pushes(args) + rest) == push_lines(args) + script_lines(rest),
    decreases args.len(),
{
    if args.len() == 0 {
        assert(pushes(args) + rest =~= rest);
        assert(push_lines(args) + script_lines(rest) =~= script_lines(rest));
    } else {
        reveal_strlit("    push.");
        reveal_strlit("\n");
        let front = args.drop_last();
        let line = "    push."@ + decimal(args.last()@);
        assert(!line.contains('\n')) by {
            if line.contains('\n') {
                let i = choose|i: int| 0 <= i < line.len() && line[i] == '\n';
                if i >= 9 {
                    lemma_decimal_is_a_line(args.last()@, i - 9);
                }
            }
        }
        lemma_push_lines(front, rest);
        assert(pushes(args) + rest =~= line + seq!['\n'] + (pushes(front) + rest));
        lemma_line_first(line, pushes(front) + rest);
        assert(push_lines(args) =~= seq![line] + push_lines(front));
        assert(push_lines(args) + script_lines(rest) =~= seq![line] + (push_lines(front)
            + script_lines(rest)));
    }
}

/// The instructions of a script are one push for each argument, the last argument first, and then
/// the call: read line by line, line `4 + k` pushes the number that the `k`th argument from the
/// end is, and running the pushes on any stack leaves the arguments on top in their order.
pub proof fn lemma_script_pushes_every_argument(
    digest: Seq<nat>,
    args: Seq<Felt>,
    stack: Seq<nat>,
)
    requires
        forall|k: int| 0 <= k < args.len() ==> (#[trigger] args[k])@ < MODULUS,
    ensures
        ({
            let lines = script_lines(script_text(digest, args));
            let n = args.len();
            &&& lines.len() == n + 8
            &&& forall|k: int|
                0 <= k < n ==> "    push."@.is_prefix_of(#[trigger] lines[4 + k]) && number(
                    lines[4 + k].skip(9),
                ) == Ok::<nat, NumberError>(args[n - 1 - k]@)
            &&& lines[4 + n as int] == "    call."@ + word_text(digest)
            &&& lines[5 + n as int] == "    exec.sys::truncate_stack"@
            &&& pushed(
                stack,
                Seq::new(n, |k: int| number(lines[4 + k].skip(9))->Ok_0),
            ) == values(args) + stack
        }),
{
    reveal_strlit("use miden::core::sys\n\n@transaction_script\npub proc main\n");
    reveal_strlit("use miden::core::sys");
    reveal_strlit("@transaction_script");
    reveal_strlit("pub proc main");
    reveal_strlit("    call.");
    reveal_strlit("    push.");
    reveal_strlit("\n    exec.sys::truncate_stack\nend\n");
    reveal_strlit("    exec.sys::truncate_stack");
    reveal_strlit("end");
    let text = script_text(digest, args);
    let call = "    call."@ + word_text(digest);
    let cut = "    exec.sys::truncate_stack"@;
    let last = "end"@ + seq!['\n'] + Seq::<char>::empty();
    let behind = cut + seq!['\n'] + last;
    let tail = call + seq!['\n'] + behind;
    let body = pushes(args) + tail;
    let main = "pub proc main"@ + seq!['\n'] + body;
    let mark = "@transaction_script"@ + seq!['\n'] + main;
    let gap = Seq::<char>::empty() + seq!['\n'] + mark;
    let whole = "use miden::core::sys"@ + seq!['\n'] + gap;
    assert("use miden::core::sys\n\n@transaction_script\npub proc main\n"@
        =~= "use miden::core::sys"@ + seq!['\n'] + (Seq::<char>::empty() + seq!['\n'] + (
    "@transaction_script"@ + seq!['\n'] + ("pub proc main"@ + seq!['\n']))));
    assert("\n    exec.sys::truncate_stack\nend\n"@ =~= seq!['\n'] + behind);
    assert(text =~= whole);
    assert(!call.contains('\n')) by {
        if call.contains('\n') {
            let i = choose|i: int| 0 <= i < call.len() && call[i] == '\n';
            if i >= 9 {
                lemma_word_is_a_line(digest, i - 9);
            }
        }
    }
    lemma_one_line(Seq::<char>::empty());
    lemma_line_first("end"@, Seq::<char>::empty());
    lemma_line_first(cut, last);
    lemma_line_first(call, behind);
    lemma_push_lines(args, tail);
    lemma_line_first("pub proc main"@, body);
    lemma_line_first("@transaction_script"@, main);
    lemma_line_first(Seq::<char>::empty(), mark);
    lemma_line_first("use miden::core::sys"@, gap);
    let lines = script_lines(text);
    let n = args.len() as int;
    let own = push_lines(args);
    assert(lines =~= seq![
        "use miden::core::sys"@,
        Seq::<char>::empty(),
        "@transaction_script"@,
        "pub proc main"@,
    ] + own + seq![call, cut, "end"@, Seq::<char>::empty()]);
    assert forall|k: int| 0 <= k < n implies "    push."@.is_prefix_of(#[trigger] lines[4 + k])
        && number(lines[4 + k].skip(9)) == Ok::<nat, NumberError>(args[n - 1 - k]@) by {
        assert(lines[4 + k] == own[k]);
        assert(args[n - 1 - k]@ < MODULUS);
        lemma_decimal_reads_back(args[n - 1 - k]@);
        assert(own[k].skip(9) =~= decimal(args[n - 1 - k]@));
        assert("    push."@.is_prefix_of(own[k])) by {
            assert(own[k].subrange(0, 9) =~= "    push."@);
        }
    }
    let read = Seq::new(args.len(), |k: int| number(lines[4 + k].skip(9))->Ok_0);
    assert(read =~= values(args).reverse()) by {
        assert forall|k: int| 0 <= k < n implies read[k] == values(args).reverse()[k] by {
            assert(number(lines[4 + k].skip(9)) == Ok::<nat, NumberError>(args[n - 1 - k]@));
        }
    }
    lemma_first_argument_is_on_top(stack, values(args));
}

/// The stack, top first, behind instructions that push `values` one after the other.
pub open spec fn pushed(stack: Seq<nat>, values: Seq<nat>) -> Seq<nat>
    decreases values.len(),
{
    if values.len() == 0 {
        stack
    } else {
        pushed(seq![values[0]] + stack, values.drop_first())
    }
}

/// Pushing the arguments from the last to the first leaves them on the stack in their order, the
/// first on top.
pub proof fn lemma_first_argument_is_on_top(stack: Seq<nat>, args: Seq<nat>)
    ensures
        pushed(stack, args.reverse()) == args + stack,
    decreases args.len(),
{
    let order = args.reverse();
    if args.len() == 0 {
        assert(args + stack =~= stack);
    } else {
        let front = args.drop_last();
        assert(order.drop_first() =~= front.reverse());
        lemma_first_argument_is_on_top(seq![args.last()] + stack, front);
        assert(front + (seq![args.last()] + stack) =~= args + stack);
    }
}

} // verus!
