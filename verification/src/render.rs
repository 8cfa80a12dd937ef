//! Rendering a value tree back to JSON text.
//!
//! Strings are emitted verbatim between quotes (the parser does no escape
//! handling, so neither does the renderer), numbers are emitted as the token
//! that named them, and object entries come out in the order they are held.

use vstd::prelude::*;
use crate::value::{JsonValue, SpecValue, seq_view, entries_view, push_char};

verus! {

broadcast use vstd::seq::axiom_seq_index_decreases, vstd::seq::axiom_seq_subrange_decreases,
    vstd::std_specs::vec::axiom_vec_decreases_to_view;

/// The rendering of a value.
pub open spec fn sp_render(v: SpecValue) -> Seq<char>
    decreases v,
{
    match v {
        SpecValue::Null => "null"@,
        SpecValue::Bool(b) => if b {
            "true"@
        } else {
            "false"@
        },
        SpecValue::Num(t) => t,
        SpecValue::Str(s) => seq!['"'] + s + seq!['"'],
        SpecValue::Array(a) => seq!['['] + sp_render_items(a) + seq![']'],
        SpecValue::Object(es) => seq!['{'] + sp_render_entries(es) + seq!['}'],
    }
}

/// The comma-separated renderings of array elements.
pub open spec fn sp_render_items(a: Seq<SpecValue>) -> Seq<char>
    decreases a,
{
    if a.len() == 0 {
        Seq::empty()
    } else if a.len() == 1 {
        sp_render(a[0])
    } else {
        sp_render(a[0]) + seq![','] + sp_render_items(a.drop_first())
    }
}

/// The comma-separated renderings of object entries, each a quoted key, a
/// colon, and the entry's value.
pub open spec fn sp_render_entries(es: Seq<(Seq<char>, SpecValue)>) -> Seq<char>
    decreases es,
{
    if es.len() == 0 {
        Seq::empty()
    } else {
        let head = seq!['"'] + es[0].0 + seq!['"'] + seq![':'] + sp_render(es[0].1);
        if es.len() == 1 {
            head
        } else {
            head + seq![','] + sp_render_entries(es.drop_first())
        }
    }
}

/// Appending a further element extends the rendering with a comma and the
/// element's rendering.
proof fn lemma_render_items_snoc(a: Seq<SpecValue>, i: int)
    requires
        1 <= i < a.len(),
    ensures
        sp_render_items(a.take(i + 1)) == sp_render_items(a.take(i)) + seq![','] + sp_render(
            a[i],
        ),
    decreases i,
{
    let t1 = a.take(i + 1);
    let t0 = a.take(i);
    if i == 1 {
        assert(t1.drop_first() =~= seq![a[1]]);
        assert(t0 =~= seq![a[0]]);
        assert(seq![a[1]][0] == a[1]);
        assert(sp_render_items(seq![a[1]]) == sp_render(a[1]));
        assert(t1[0] == a[0]);
        assert(sp_render_items(t1) == sp_render(a[0]) + seq![','] + sp_render(a[1]));
    } else {
        let d = a.drop_first();
        lemma_render_items_snoc(d, i - 1);
        assert(t1.drop_first() =~= d.take(i));
        assert(t0.drop_first() =~= d.take(i - 1));
        assert(d.take(i)[i - 1] == a[i]);
        assert(sp_render_items(t1) == sp_render(a[0]) + seq![','] + sp_render_items(d.take(i)));
        assert(sp_render_items(t0) == sp_render(a[0]) + seq![','] + sp_render_items(
            d.take(i - 1),
        ));
        assert(sp_render_items(t1) =~= sp_render_items(t0) + seq![','] + sp_render(a[i]));
    }
}

/// Appending a further entry extends the rendering with a comma and the
/// entry's rendering.
proof fn lemma_render_entries_snoc(es: Seq<(Seq<char>, SpecValue)>, i: int)
    requires
        1 <= i < es.len(),
    ensures
        sp_render_entries(es.take(i + 1)) == sp_render_entries(es.take(i)) + seq![','] + (seq!['"']
            + es[i].0 + seq!['"'] + seq![':'] + sp_render(es[i].1)),
    decreases i,
{
    let t1 = es.take(i + 1);
    let t0 = es.take(i);
    if i == 1 {
        assert(t1.drop_first() =~= seq![es[1]]);
        assert(t0 =~= seq![es[0]]);
        assert(seq![es[1]][0] == es[1]);
        assert(sp_render_entries(seq![es[1]]) == seq!['"'] + es[1].0 + seq!['"'] + seq![':']
            + sp_render(es[1].1));
        assert(t1[0] == es[0]);
        assert(sp_render_entries(t1) =~= sp_render_entries(t0) + seq![','] + (seq!['"'] + es[1].0
            + seq!['"'] + seq![':'] + sp_render(es[1].1)));
    } else {
        let d = es.drop_first();
        lemma_render_entries_snoc(d, i - 1);
        assert(t1.drop_first() =~= d.take(i));
        assert(t0.drop_first() =~= d.take(i - 1));
        assert(d.take(i)[i - 1] == es[i]);
        assert(sp_render_entries(t1) =~= sp_render_entries(t0) + seq![','] + (seq!['"'] + es[i].0
            + seq!['"'] + seq![':'] + sp_render(es[i].1)));
    }
}

/// Appends a text to the output, character by character.
#[verifier::loop_isolation(false)]
fn push_str(out: &mut String, text: &str)
    ensures
        final(out)@ == old(out)@ + text@,
{
    let n = text.unicode_len();
    let mut i: usize = 0;
    while i < n
        invariant
            n == text@.len(),
            0 <= i <= n,
            out@ == old(out)@ + text@.take(i as int),
        decreases n - i,
    {
        push_char(out, text.get_char(i));
        proof {
            assert(old(out)@ + text@.take(i as int) + seq![text@[i as int]] =~= old(out)@
                + text@.take(i + 1));
        }
        i += 1;
    }
    proof {
        assert(old(out)@ + text@.take(n as int) =~= old(out)@ + text@);
    }
}

/// Appends a string payload between quotes.
fn push_quoted(out: &mut String, text: &String)
    ensures
        final(out)@ == old(out)@ + seq!['"'] + text@ + seq!['"'],
{
    push_char(out, '"');
    push_str(out, text.as_str());
    push_char(out, '"');
    proof {
        assert(final(out)@ =~= old(out)@ + seq!['"'] + text@ + seq!['"']);
    }
}

/// Serializes the tree back to JSON text.
#[verifier::loop_isolation(false)]
pub fn print_json(value: &JsonValue) -> (r: String)
    ensures
        r@ == sp_render(value@),
    decreases value,
{
    let mut result = String::new();
    match value {
        JsonValue::Null => {
            push_str(&mut result, "null");
        },
        JsonValue::Bool(b) => {
            if *b {
                push_str(&mut result, "true");
            } else {
                push_str(&mut result, "false");
            }
        },
        JsonValue::Num(t) => {
            push_str(&mut result, t.as_str());
        },
        JsonValue::Str(s) => {
            push_quoted(&mut result, s);
        },
        JsonValue::Array(values) => {
            push_char(&mut result, '[');
            let ghost a = seq_view(values@);
            let n = values.len();
            let mut i: usize = 0;
            while i < n
                invariant
                    n == values.len(),
                    a == seq_view(values@),
                    0 <= i <= n,
                    result@ == seq!['['] + sp_render_items(a.take(i as int)),
                decreases n - i,
            {
                if i > 0 {
                    push_char(&mut result, ',');
                }
                let piece = print_json(&values[i]);
                push_str(&mut result, piece.as_str());
                proof {
                    if i == 0 {
                        assert(a.take(1) =~= seq![a[0]]);
                        assert(result@ =~= seq!['['] + sp_render_items(a.take(1)));
                    } else {
                        lemma_render_items_snoc(a, i as int);
                        assert(result@ =~= seq!['['] + sp_render_items(a.take(i + 1)));
                    }
                }
                i += 1;
            }
            push_char(&mut result, ']');
            proof {
                assert(a.take(n as int) =~= a);
                assert(result@ =~= seq!['['] + sp_render_items(a) + seq![']']);
            }
        },
        JsonValue::Object(entries) => {
            push_char(&mut result, '{');
            let ghost es = entries_view(entries@);
            let n = entries.len();
            let mut i: usize = 0;
            while i < n
                invariant
                    n == entries.len(),
                    es == entries_view(entries@),
                    0 <= i <= n,
                    result@ == seq!['{'] + sp_render_entries(es.take(i as int)),
                decreases n - i,
            {
                if i > 0 {
                    push_char(&mut result, ',');
                }
                push_quoted(&mut result, &entries[i].0);
                push_char(&mut result, ':');
                let piece = print_json(&entries[i].1);
                push_str(&mut result, piece.as_str());
                proof {
                    if i == 0 {
                        assert(es.take(1) =~= seq![es[0]]);
                        assert(result@ =~= seq!['{'] + sp_render_entries(es.take(1)));
                    } else {
                        lemma_render_entries_snoc(es, i as int);
                        assert(result@ =~= seq!['{'] + sp_render_entries(es.take(i + 1)));
                    }
                }
                i += 1;
            }
            push_char(&mut result, '}');
            proof {
                assert(es.take(n as int) =~= es);
                assert(result@ =~= seq!['{'] + sp_render_entries(es) + seq!['}']);
            }
        },
    }
    result
}

} // verus!
