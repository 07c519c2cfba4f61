//! Escaping of text labels for the three reserved markup characters.
use vstd::prelude::*;
use vstd::string::StrSliceExecFns;
use crate::chars::string_from_chars;

verus! {

/// The escaped form of one character: `&`, `<` and `>` become entities,
/// every other character stands for itself.
pub open spec fn esc_char(c: char) -> Seq<char> {
    if c == '&' {
        seq!['&', 'a', 'm', 'p', ';']
    } else if c == '<' {
        seq!['&', 'l', 't', ';']
    } else if c == '>' {
        seq!['&', 'g', 't', ';']
    } else {
        seq![c]
    }
}

/// The escaped form of a character sequence.
pub open spec fn esc_seq(s: Seq<char>) -> Seq<char>
    decreases s.len(),
{
    if s.len() == 0 {
        Seq::empty()
    } else {
        esc_char(s[0]) + esc_seq(s.skip(1))
    }
}

proof fn lemma_esc_take_step(s: Seq<char>, i: int)
    requires
        0 <= i < s.len(),
    ensures
        esc_seq(s.take(i + 1)) == esc_seq(s.take(i)) + esc_char(s[i]),
    decreases i,
{
    if i == 0 {
        assert(s.take(1).skip(1) =~= Seq::<char>::empty());
        assert(s.take(1)[0] == s[0]);
        assert(esc_seq(s.take(1)) == esc_char(s[0]) + esc_seq(Seq::<char>::empty()));
        assert(esc_char(s[0]) + Seq::<char>::empty() =~= esc_char(s[0]));
        assert(esc_seq(s.take(0)) + esc_char(s[0]) =~= esc_char(s[0]));
    } else {
        lemma_esc_take_step(s.skip(1), i - 1);
        assert(s.take(i + 1).skip(1) =~= s.skip(1).take(i));
        assert(s.take(i).skip(1) =~= s.skip(1).take(i - 1));
        assert(esc_seq(s.take(i + 1)) == esc_char(s[0]) + esc_seq(s.skip(1).take(i)));
        assert(esc_seq(s.take(i)) == esc_char(s[0]) + esc_seq(s.skip(1).take(i - 1)));
        assert(esc_char(s[0]) + (esc_seq(s.skip(1).take(i - 1)) + esc_char(s.skip(1)[i - 1]))
            =~= (esc_char(s[0]) + esc_seq(s.skip(1).take(i - 1))) + esc_char(s[i]));
    }
}

/// Escapes a label for embedding in markup text: `&`, `<` and `>` are
/// replaced by their entities; no other character is changed.
pub fn xml_esc(s: &str) -> (r: String)
    ensures
        r@ == esc_seq(s@),
{
    let len = s.unicode_len();
    let mut out: Vec<char> = Vec::new();
    let mut i: usize = 0;
    while i < len
        invariant
            i <= len,
            len == s@.len(),
            out@ == esc_seq(s@.take(i as int)),
        decreases len - i,
    {
        let c = s.get_char(i);
        if c == '&' {
            out.push('&');
            out.push('a');
            out.push('m');
            out.push('p');
            out.push(';');
        } else if c == '<' {
            out.push('&');
            out.push('l');
            out.push('t');
            out.push(';');
        } else if c == '>' {
            out.push('&');
            out.push('g');
            out.push('t');
            out.push(';');
        } else {
            out.push(c);
        }
        proof {
            lemma_esc_take_step(s@, i as int);
            assert(out@ =~= esc_seq(s@.take(i as int)) + esc_char(s@[i as int]));
        }
        i = i + 1;
    }
    proof {
        assert(s@.take(len as int) =~= s@);
    }
    string_from_chars(&out)
}

} // verus!
