use vstd::prelude::*;
use crate::text::push_char;

verus! {

/// Characters a Bourne shell takes literally in a word.
pub open spec fn is_plain(c: char) -> bool {
    ||| 'a' <= c <= 'z'
    ||| 'A' <= c <= 'Z'
    ||| '0' <= c <= '9'
    ||| c == '-'
    ||| c == '_'
    ||| c == '.'
    ||| c == ':'
    ||| c == '/'
}

pub open spec fn all_plain(s: Seq<char>) -> bool {
    forall|i: int| 0 <= i < s.len() ==> is_plain(#[trigger] s[i])
}

/// How one character is written inside single quotes: a single quote closes
/// the quoted span, adds an escaped quote and reopens the span.
pub open spec fn quoted_piece(c: char) -> Seq<char> {
    if c == '\'' {
        seq!['\'', '\\', '\'', '\'']
    } else {
        seq![c]
    }
}

pub open spec fn quoted_body(s: Seq<char>) -> Seq<char> {
    s.map_values(|c: char| quoted_piece(c)).flatten()
}

/// A string as it is pasted into a shell command line: unchanged when all its
/// characters are plain, else wrapped in single quotes with each single quote
/// written as `'\''`.
pub open spec fn escaped(s: Seq<char>) -> Seq<char> {
    if all_plain(s) {
        s
    } else {
        seq!['\''] + quoted_body(s) + seq!['\'']
    }
}

/// The characters a Bourne shell reads from a word outside quotes: a single
/// quote opens a quoted span, a backslash takes the next character
/// literally, and any other character stands for itself.
pub open spec fn shell_word(w: Seq<char>) -> Seq<char>
    decreases w.len(),
{
    if w.len() == 0 {
        Seq::empty()
    } else if w[0] == '\'' {
        shell_quoted(w.drop_first())
    } else if w[0] == '\\' && w.len() >= 2 {
        seq![w[1]] + shell_word(w.skip(2))
    } else {
        seq![w[0]] + shell_word(w.drop_first())
    }
}

/// The characters a Bourne shell reads inside a single-quoted span: every
/// character stands for itself up to the closing single quote.
pub open spec fn shell_quoted(w: Seq<char>) -> Seq<char>
    decreases w.len(),
{
    if w.len() == 0 {
        Seq::empty()
    } else if w[0] == '\'' {
        shell_word(w.drop_first())
    } else {
        seq![w[0]] + shell_quoted(w.drop_first())
    }
}

/// Returns a version of `input` that is safe to paste into a Bourne shell
/// command line.
pub fn escape_for_shell(input: &str) -> (r: String)
    ensures
        r@ == escaped(input@),
{
    let mut plain = true;
    for c in it: input.chars()
        invariant
            it.seq() == input@,
            plain == forall|i: int| 0 <= i < it.index() ==> is_plain(#[trigger] input@[i]),
    {
        let ok = ('a' <= c && c <= 'z') || ('A' <= c && c <= 'Z') || ('0' <= c && c <= '9') || c
            == '-' || c == '_' || c == '.' || c == ':' || c == '/';
        if !ok {
            plain = false;
        }
    }
    if plain {
        return input.to_owned();
    }
    let mut out = String::new();
    push_char(&mut out, '\'');
    for c in it: input.chars()
        invariant
            it.seq() == input@,
            out@ == seq!['\''] + quoted_body(input@.take(it.index() as int)),
    {
        let ghost i = it.index();
        proof {
            let pieces = input@.take(i as int).map_values(|c: char| quoted_piece(c));
            assert(input@.take(i + 1).map_values(|c: char| quoted_piece(c)) =~= pieces.push(
                quoted_piece(c),
            ));
            pieces.lemma_flatten_push(quoted_piece(c));
        }
        if c == '\'' {
            push_char(&mut out, '\'');
            push_char(&mut out, '\\');
            push_char(&mut out, '\'');
            push_char(&mut out, '\'');
        } else {
            push_char(&mut out, c);
        }
        assert(out@ =~= seq!['\''] + quoted_body(input@.take(i + 1)));
    }
    push_char(&mut out, '\'');
    assert(input@.take(input@.len() as int) =~= input@);
    out
}


proof fn lemma_plain_word(s: Seq<char>)
    requires
        all_plain(s),
    ensures
        shell_word(s) == s,
    decreases s.len(),
{
    if s.len() > 0 {
        assert(is_plain(s[0]));
        let rest = s.drop_first();
        assert(all_plain(rest)) by {
            assert forall|i: int| 0 <= i < rest.len() implies is_plain(#[trigger] rest[i]) by {
                assert(rest[i] == s[i + 1]);
            }
        }
        lemma_plain_word(rest);
        assert(seq![s[0]] + rest =~= s);
    }
}

proof fn lemma_quoted_body_first(s: Seq<char>)
    requires
        s.len() > 0,
    ensures
        quoted_body(s) == quoted_piece(s[0]) + quoted_body(s.drop_first()),
{
    let pieces = s.map_values(|c: char| quoted_piece(c));
    assert(pieces.drop_first() =~= s.drop_first().map_values(|c: char| quoted_piece(c)));
}

/// Inside a quoted span, the quoted body of `s` followed by the closing
/// quote reads back as `s`.
proof fn lemma_quoted_span(s: Seq<char>)
    ensures
        shell_quoted(quoted_body(s) + seq!['\'']) == s,
    decreases s.len(),
{
    let close = seq!['\''];
    if s.len() == 0 {
        assert(s.map_values(|c: char| quoted_piece(c)) =~= Seq::<Seq<char>>::empty());
        assert(quoted_body(s) + close =~= close);
        assert(close.drop_first() =~= Seq::<char>::empty());
        assert(s =~= Seq::<char>::empty());
        assert(shell_quoted(close) == shell_word(close.drop_first()));
        assert(shell_word(close.drop_first()) =~= Seq::<char>::empty());
    } else {
        let c = s[0];
        let tail = s.drop_first();
        lemma_quoted_body_first(s);
        lemma_quoted_span(tail);
        let rest = quoted_body(tail) + close;
        let w = quoted_body(s) + close;
        assert(w =~= quoted_piece(c) + rest);
        if c == '\'' {
            let w1 = w.drop_first();
            assert(w1 =~= seq!['\\', '\'', '\''] + rest);
            assert(w1.skip(2) =~= seq!['\''] + rest);
            assert((seq!['\''] + rest).drop_first() =~= rest);
            assert(shell_word(w1.skip(2)) == shell_quoted(rest));
            assert(shell_word(w1) == seq!['\''] + shell_quoted(rest));
            assert(w[0] == '\'');
            assert(shell_quoted(w) == shell_word(w1));
        } else {
            assert(w[0] == c);
            assert(w.drop_first() =~= rest);
            assert(shell_quoted(w) == seq![c] + shell_quoted(rest));
        }
        assert(seq![c] + tail =~= s);
    }
}

/// A string whose characters are all plain is left unchanged.
pub proof fn lemma_plain_unchanged(s: Seq<char>)
    requires
        all_plain(s),
    ensures
        escaped(s) == s,
{
}

/// Whatever a string holds, single quotes included, a Bourne shell reads its
/// escaped form back as exactly that string.
pub proof fn lemma_escape_round_trip(s: Seq<char>)
    ensures
        shell_word(escaped(s)) == s,
{
    if all_plain(s) {
        lemma_plain_word(s);
    } else {
        let body = quoted_body(s) + seq!['\''];
        lemma_quoted_span(s);
        let w = seq!['\''] + quoted_body(s) + seq!['\''];
        assert(w.drop_first() =~= body);
    }
}

} // verus!
