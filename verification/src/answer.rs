use vstd::prelude::*;

use crate::text::chars_to_string;
use crate::text::push_str_chars;

verus! {

/// The context block a retrieval-augmented answer is built on: the retrieved
/// chunks' contents in ranked order, separated by blank lines. Scores are
/// not written into the context; annotating them is left to the caller's
/// presentation layer.
pub open spec fn context_of(results: Seq<(u32, Seq<char>)>) -> Seq<char>
    decreases results.len(),
{
    if results.len() == 0 {
        Seq::empty()
    } else if results.len() == 1 {
        results.first().1
    } else {
        results.first().1 + "\n\n"@ + context_of(results.drop_first())
    }
}

/// The prompt handed to the generation model, embedding the question and the
/// context verbatim.
pub open spec fn prompt_of(question: Seq<char>, context: Seq<char>) -> Seq<char> {
    "Based on the following context from an EPUB book, answer the question: "@ + question
        + "\n\nContext:\n"@ + context + "\n\nAnswer:"@
}

fn build_context_chars(results: &Vec<(u32, String)>, i: usize, out: &mut Vec<char>)
    requires
        i <= results@.len(),
    ensures
        final(out)@ == old(out)@ + context_of(results.deep_view().skip(i as int)),
    decreases results@.len() - i,
{
    if i == results.len() {
        proof {
            assert(results.deep_view().skip(i as int) =~= Seq::<(u32, Seq<char>)>::empty());
            assert(out@ =~= old(out)@ + context_of(results.deep_view().skip(i as int)));
        }
    } else {
        push_str_chars(out, results[i].1.as_str());
        proof {
            assert(results.deep_view().skip(i as int).first() == results.deep_view()[i as int]);
            assert(results.deep_view()[i as int].1 == results@[i as int].1@);
        }
        if i + 1 == results.len() {
            proof {
                assert(results.deep_view().skip(i as int).len() == 1);
                assert(out@ =~= old(out)@ + context_of(results.deep_view().skip(i as int)));
            }
        } else {
            push_str_chars(out, "\n\n");
            build_context_chars(results, i + 1, out);
            proof {
                let sk = results.deep_view().skip(i as int);
                assert(sk.len() > 1);
                assert(sk.drop_first() =~= results.deep_view().skip(i + 1 as int));
                assert(out@ =~= old(out)@ + context_of(sk));
            }
        }
    }
}

/// Builds the context block from ranked search results.
pub fn build_context(results: &Vec<(u32, String)>) -> (r: String)
    ensures
        r@ == context_of(results.deep_view()),
{
    let mut out: Vec<char> = Vec::new();
    build_context_chars(results, 0, &mut out);
    proof {
        assert(results.deep_view().skip(0) =~= results.deep_view());
        assert(out@ =~= context_of(results.deep_view()));
    }
    chars_to_string(&out)
}

/// Builds the generation prompt verbatim from the question and the context.
pub fn build_prompt(question: &str, context: &str) -> (r: String)
    ensures
        r@ == prompt_of(question@, context@),
{
    let mut out: Vec<char> = Vec::new();
    push_str_chars(
        &mut out,
        "Based on the following context from an EPUB book, answer the question: ",
    );
    push_str_chars(&mut out, question);
    push_str_chars(&mut out, "\n\nContext:\n");
    push_str_chars(&mut out, context);
    push_str_chars(&mut out, "\n\nAnswer:");
    proof {
        assert(out@ =~= prompt_of(question@, context@));
    }
    chars_to_string(&out)
}

/// The answer reported when retrieval found nothing, chosen over calling the
/// generation model with an empty context.
pub fn no_content_answer() -> (r: String)
    ensures
        r@ == "No relevant content found."@,
{
    String::from_str("No relevant content found.")
}

/// Decides the retrieval-augmented step. With no retrieved chunks the caller
/// short-circuits to [`no_content_answer`] instead of calling the generation
/// model; otherwise this is the exact prompt to hand over.
pub fn rag_prompt(question: &str, results: &Vec<(u32, String)>) -> (r: Option<String>)
    ensures
        match r {
            Option::Some(p) => results@.len() > 0 && p@ == prompt_of(
                question@,
                context_of(results.deep_view()),
            ),
            Option::None => results@.len() == 0,
        },
{
    if results.len() == 0 {
        Option::None
    } else {
        let ctx = build_context(results);
        Option::Some(build_prompt(question, ctx.as_str()))
    }
}

} // verus!
