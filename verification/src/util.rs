//! Preparing prompt texts: each blank of a prompt is a run of underscores.

use crate::schema::{Prompt, PromptView};
use vstd::prelude::*;

verus! {

/// The number of underscores that stand for a blank in a loaded prompt.
pub const N_UNDERSCORES: usize = 5;

/// What one character of a text becomes: an underscore becomes `length`
/// underscores, every other character stays.
pub open spec fn expanded_char(c: char, length: nat) -> Seq<char> {
    if c == '_' {
        Seq::new(length, |i: int| '_')
    } else {
        seq![c]
    }
}

/// The text with each underscore replaced by `length` underscores.
pub open spec fn expanded(text: Seq<char>, length: nat) -> Seq<char>
    decreases text.len(),
{
    if text.len() == 0 {
        Seq::empty()
    } else {
        expanded(text.drop_last(), length) + expanded_char(text.last(), length)
    }
}

/// With one underscore for each underscore the text stays as it is.
pub proof fn lemma_expanded_once(text: Seq<char>)
    ensures
        expanded(text, 1) == text,
    decreases text.len(),
{
    if text.len() > 0 {
        lemma_expanded_once(text.drop_last());
        assert(expanded_char(text.last(), 1) =~= seq![text.last()]);
        assert(text.drop_last() + seq![text.last()] =~= text);
    }
}

/// A text without underscores stays as it is, whatever the length.
pub proof fn lemma_expanded_plain(text: Seq<char>, length: nat)
    requires
        !text.contains('_'),
    ensures
        expanded(text, length) == text,
    decreases text.len(),
{
    if text.len() > 0 {
        assert(text.last() == text[text.len() - 1]);
        assert forall|i: int| 0 <= i < text.drop_last().len() implies text.drop_last()[i]
            != '_' by {
            assert(text[i] == text.drop_last()[i]);
        }
        lemma_expanded_plain(text.drop_last(), length);
        assert(text.drop_last() + seq![text.last()] =~= text);
    }
}

/// Appends one character with `String::push`.
///
/// Believed, not proved: the text afterwards is the text before with `c`
/// at its end.
#[verifier::external_body]
pub(crate) fn push_char(text: &mut String, c: char)
    ensures
        final(text)@ == old(text)@.push(c),
{
    text.push(c);
}

/// Replaces each underscore of `src` by `length` underscores.
pub fn expand_underscores(src: &str, length: usize) -> (out: String)
    requires
        length > 0,
    ensures
        out@ == expanded(src@, length as nat),
{
    if length == 1 {
        proof {
            lemma_expanded_once(src@);
        }
        return src.to_owned();
    }
    let mut out = String::new();
    for c in it: src.chars()
        invariant
            it.seq() == src@,
            out@ == expanded(src@.take(it.index() as int), length as nat),
    {
        proof {
            let at = it.index() as int;
            assert(src@.take(at + 1).drop_last() =~= src@.take(at));
            assert(src@.take(at + 1).last() == c);
        }
        if c == '_' {
            let ghost before = out@;
            let mut k: usize = 0;
            while k < length
                invariant
                    k <= length,
                    out@ == before + Seq::new(k as nat, |i: int| '_'),
                decreases length - k,
            {
                push_char(&mut out, '_');
                k += 1;
                proof {
                    assert(out@ =~= before + Seq::new(k as nat, |i: int| '_'));
                }
            }
        } else {
            push_char(&mut out, c);
            proof {
                assert(expanded_char(c, length as nat) =~= seq![c]);
            }
        }
    }
    proof {
        assert(src@.take(src@.len() as int) =~= src@);
    }
    out
}

/// What a loaded prompt becomes: its blanks are widened to
/// [`N_UNDERSCORES`] underscores.
pub open spec fn widened(prompt: PromptView) -> PromptView {
    PromptView {
        content: expanded(prompt.content, N_UNDERSCORES as nat),
        n_answers: prompt.n_answers,
    }
}

/// Prepares loaded prompts for play: widens the blanks of each.
pub fn load_prompts(raw: Vec<Prompt>) -> (prompts: Vec<Prompt>)
    ensures
        prompts.deep_view() == raw.deep_view().map_values(|p: PromptView| widened(p)),
{
    let mut prompts: Vec<Prompt> = Vec::new();
    let mut i: usize = 0;
    while i < raw.len()
        invariant
            i <= raw.len(),
            prompts@.len() == i,
            forall|k: int| 0 <= k < i ==> (#[trigger] prompts@[k]).deep_view() == widened(raw@[k].deep_view()),
        decreases raw.len() - i,
    {
        let content = expand_underscores(raw[i].content.as_str(), N_UNDERSCORES);
        prompts.push(Prompt::new(content, raw[i].n_answers));
        i += 1;
    }
    proof {
        assert(prompts.deep_view() =~= raw.deep_view().map_values(|p: PromptView| widened(p)));
    }
    prompts
}

} // verus!
