//! Dictionary re-tokenization.
//!
//! Logographic-script OCR tends to emit one raw word per glyph. The dictionary
//! tokenizer segments the concatenated line text into linguistically correct
//! tokens; this module reconciles the two: a cursor walks the raw word list,
//! and for each token it scans forward to the next raw word whose text starts
//! with the token's first character, passes any skipped words through
//! unmerged, and folds the next token-length (in characters) raw words into a
//! single merged word by box union. A token with no matching raw word is
//! silently skipped: this is a heuristic reconciliation, not an exact
//! alignment.

use vstd::prelude::*;
use vstd::string::*;

use crate::markup::MarkupNode;
use crate::words::{HocrWord, WordModel, word_models, spec_fold, concat_text, lemma_fold_wf, lemma_fold_text};

verus! {

/// What the dictionary's segmentation of a text is. The dictionary is a fixed
/// table compiled into the lookup crate, so the result depends on the text
/// alone.
pub uninterp spec fn dict_tokens(s: Seq<char>) -> Seq<Seq<char>>;

/// Relies on chinese_dictionary::tokenize: longest-prefix dictionary
/// segmentation of a text; the embedded dictionary is fixed, so the result
/// depends on the text alone.
#[verifier::external_body]
pub fn tokenize_text(s: &str) -> (r: Vec<String>)
    ensures
        r.deep_view() == dict_tokens(s@),
{
    chinese_dictionary::tokenize(s).into_iter().map(|t| t.to_owned()).collect()
}

/// The views of a token list.
pub open spec fn token_views(ts: Seq<String>) -> Seq<Seq<char>> {
    ts.map_values(|t: String| t@)
}

/// The concatenation of a token list.
pub open spec fn concat_tokens(ts: Seq<Seq<char>>) -> Seq<char>
    decreases ts.len(),
{
    if ts.len() == 0 {
        Seq::empty()
    } else {
        concat_tokens(ts.drop_last()) + ts.last()
    }
}

/// The first raw word at or after the cursor whose text starts with the given
/// character.
pub open spec fn first_match(ws: Seq<WordModel>, i: int, c: char) -> Option<int>
    decreases ws.len() - i,
{
    if i < 0 || i >= ws.len() {
        None
    } else if ws[i].text.len() > 0 && ws[i].text[0] == c {
        Some(i)
    } else {
        first_match(ws, i + 1, c)
    }
}

/// The re-tokenization of raw words against a token list, from a cursor.
/// Each token either matches a raw word ahead of the cursor (skipped raw
/// words pass through unmerged, then token-length raw words are folded into
/// one) or is skipped.
pub open spec fn spec_retokenize(ws: Seq<WordModel>, tokens: Seq<Seq<char>>, i: int) -> Seq<WordModel>
    decreases tokens.len(),
{
    if tokens.len() == 0 {
        Seq::empty()
    } else {
        let t = tokens[0];
        let rest = tokens.drop_first();
        if t.len() == 0 {
            spec_retokenize(ws, rest, i)
        } else {
            match first_match(ws, i, t[0]) {
                None => spec_retokenize(ws, rest, i),
                Some(j) => {
                    let end = if j + t.len() <= ws.len() { j + t.len() } else { ws.len() as int };
                    ws.subrange(i, j) + seq![spec_fold(ws.subrange(j, end))] + spec_retokenize(ws, rest, end)
                },
            }
        }
    }
}

proof fn lemma_first_match_found(ws: Seq<WordModel>, i: int, j: int, c: char)
    requires
        0 <= i <= j < ws.len(),
        forall|m: int| i <= m < j ==> !((#[trigger] ws[m]).text.len() > 0 && ws[m].text[0] == c),
        ws[j].text.len() > 0 && ws[j].text[0] == c,
    ensures
        first_match(ws, i, c) == Some(j),
    decreases j - i,
{
    if i < j {
        lemma_first_match_found(ws, i + 1, j, c);
    }
}

proof fn lemma_first_match_none(ws: Seq<WordModel>, i: int, c: char)
    requires
        0 <= i,
        forall|m: int| i <= m < ws.len() ==> !((#[trigger] ws[m]).text.len() > 0 && ws[m].text[0] == c),
    ensures
        first_match(ws, i, c) is None,
    decreases ws.len() - i,
{
    if i < ws.len() {
        lemma_first_match_none(ws, i + 1, c);
    }
}

/// Re-tokenizes one line's raw words against a token list. The result is
/// exactly what `spec_retokenize` describes; merged words keep the invariants
/// of the raw words they subsume.
pub fn merge_tokens(words: &Vec<HocrWord>, tokens: &Vec<String>) -> (r: Vec<HocrWord>)
    requires
        forall|k: int| 0 <= k < words@.len() ==> (#[trigger] words@[k]).wf(),
    ensures
        word_models(r@) == spec_retokenize(word_models(words@), token_views(tokens@), 0),
        forall|k: int| 0 <= k < r@.len() ==> (#[trigger] r@[k]).wf(),
{
    let ghost ws = word_models(words@);
    let ghost tvs = token_views(tokens@);
    let mut out: Vec<HocrWord> = Vec::new();
    let mut i: usize = 0;
    let mut k: usize = 0;
    proof {
        assert(tvs.skip(0) =~= tvs);
        assert(word_models(out@) =~= Seq::<WordModel>::empty());
    }
    while k < tokens.len()
        invariant
            ws == word_models(words@),
            tvs == token_views(tokens@),
            forall|m: int| 0 <= m < ws.len() ==> (#[trigger] ws[m]).wf(),
            k <= tokens@.len(),
            i <= words@.len(),
            spec_retokenize(ws, tvs, 0) == word_models(out@) + spec_retokenize(ws, tvs.skip(k as int), i as int),
            forall|m: int| 0 <= m < out@.len() ==> (#[trigger] out@[m]).wf(),
        decreases tokens@.len() - k,
    {
        proof {
            assert(tvs.skip(k as int).drop_first() =~= tvs.skip(k + 1));
            assert(tvs.skip(k as int)[0] == tokens@[k as int]@);
        }
        let token = &tokens[k];
        if token.as_str().unicode_len() == 0 {
            k += 1;
            continue;
        }
        let c = token.as_str().get_char(0);

        // Scan forward from the cursor for a raw word starting with the
        // token's first character.
        let mut j: usize = i;
        let mut found: bool = false;
        while j < words.len() && !found
            invariant
                ws == word_models(words@),
                forall|m: int| 0 <= m < ws.len() ==> (#[trigger] ws[m]).wf(),
                i <= j <= words@.len(),
                forall|m: int| i <= m < j ==> !((#[trigger] ws[m]).text.len() > 0 && ws[m].text[0] == c),
                found ==> j < words@.len() && ws[j as int].text.len() > 0 && ws[j as int].text[0] == c,
            decreases words@.len() - j, (if found { 0int } else { 1int }),
        {
            let wt = &words[j];
            if wt.text.as_str().unicode_len() > 0 && wt.text.as_str().get_char(0) == c {
                found = true;
            } else {
                j += 1;
            }
        }

        if !found {
            proof {
                lemma_first_match_none(ws, i as int, c);
            }
            k += 1;
            continue;
        }
        proof {
            lemma_first_match_found(ws, i as int, j as int, c);
        }

        // Pass skipped raw words through unmerged.
        let ghost out0 = out@;
        let mut p: usize = i;
        while p < j
            invariant
                ws == word_models(words@),
                forall|m: int| 0 <= m < ws.len() ==> (#[trigger] ws[m]).wf(),
                i <= p <= j <= words@.len(),
                word_models(out@) == word_models(out0) + ws.subrange(i as int, p as int),
                forall|m: int| 0 <= m < out@.len() ==> (#[trigger] out@[m]).wf(),
            decreases j - p,
        {
            let ghost outp = out@;
            out.push(words[p].duplicate());
            proof {
                assert(out@.drop_last() == outp);
                assert(out@.last()@ == ws[p as int]);
                assert(ws.subrange(i as int, p + 1).drop_last() =~= ws.subrange(i as int, p as int));
                assert(ws.subrange(i as int, p + 1).last() == ws[p as int]);
                assert(word_models(out@) =~~= word_models(outp).push(ws[p as int]));
                assert(word_models(out@) =~~= word_models(out0) + ws.subrange(i as int, p + 1));
            }
            p += 1;
        }

        // Fold the next token-length raw words into one merged word.
        let len = token.as_str().unicode_len();
        let end = if len >= words.len() - j { words.len() } else { j + len };
        proof {
            assert(end == (if j + token@.len() <= ws.len() { j + token@.len() } else { ws.len() as int }));
        }
        let mut merged = words[j].duplicate();
        let mut m: usize = j + 1;
        proof {
            assert(ws.subrange(j as int, j + 1) =~= seq![ws[j as int]]);
        }
        while m < end
            invariant
                ws == word_models(words@),
                j < end <= words@.len(),
                j + 1 <= m <= end,
                merged@ == spec_fold(ws.subrange(j as int, m as int)),
            decreases end - m,
        {
            merged = merged.merged_with(&words[m]);
            proof {
                assert(ws.subrange(j as int, m + 1).drop_last() =~= ws.subrange(j as int, m as int));
                assert(ws.subrange(j as int, m + 1).last() == ws[m as int]);
            }
            m += 1;
        }
        proof {
            assert(forall|q: int| 0 <= q < ws.subrange(j as int, end as int).len() ==> (#[trigger] ws.subrange(j as int, end as int)[q]).wf());
            lemma_fold_wf(ws.subrange(j as int, end as int));
        }
        out.push(merged);
        proof {
            assert(word_models(out@) =~= word_models(out0) + ws.subrange(i as int, j as int) + seq![spec_fold(ws.subrange(j as int, end as int))]);
            assert(word_models(out@) + spec_retokenize(ws, tvs.skip(k + 1), end as int)
                =~= word_models(out0) + spec_retokenize(ws, tvs.skip(k as int), i as int));
        }
        i = end;
        k += 1;
    }
    proof {
        assert(tvs.skip(tvs.len() as int) =~= Seq::<Seq<char>>::empty());
        assert(word_models(out@) + Seq::<WordModel>::empty() =~= word_models(out@));
    }
    out
}

/// Re-tokenizes one line against the dictionary: the tokens are the
/// dictionary's segmentation of the line's concatenated text.
pub fn retokenize_line(words: &Vec<HocrWord>) -> (r: Vec<HocrWord>)
    requires
        forall|k: int| 0 <= k < words@.len() ==> (#[trigger] words@[k]).wf(),
    ensures
        word_models(r@) == spec_retokenize(
            word_models(words@),
            dict_tokens(concat_text(word_models(words@))),
            0,
        ),
        forall|k: int| 0 <= k < r@.len() ==> (#[trigger] r@[k]).wf(),
{
    let text = concat_words_text(words);
    let tokens = tokenize_text(text.as_str());
    proof {
        assert(token_views(tokens@) =~= tokens.deep_view());
    }
    merge_tokens(words, &tokens)
}

/// One line's raw words merged to dictionary boundaries: the tokens are the
/// dictionary's segmentation of the line's concatenated text.
pub open spec fn spec_merged_line(ws: Seq<WordModel>) -> Seq<WordModel> {
    spec_retokenize(ws, dict_tokens(concat_text(ws)), 0)
}

/// All of a document's lines after dictionary re-tokenization; a line whose
/// merged word list comes out empty is dropped.
pub open spec fn spec_document_lines(lines: Seq<Seq<WordModel>>) -> Seq<Seq<WordModel>>
    decreases lines.len(),
{
    if lines.len() == 0 {
        Seq::empty()
    } else {
        spec_document_lines(lines.drop_last()) + (
            if spec_merged_line(lines.last()).len() > 0 {
                seq![spec_merged_line(lines.last())]
            } else {
                Seq::empty()
            }
        )
    }
}

/// The whole text pipeline up to layout: parses the markup tree into raw
/// lines, merges each line's words to dictionary boundaries, and drops lines
/// that end up empty. Never fails, whatever the document's shape.
pub fn nodes_to_lines(nodes: &Vec<MarkupNode>) -> (r: Vec<Vec<HocrWord>>)
    ensures
        crate::markup::lines_models(r@) == spec_document_lines(crate::markup::spec_lines_of(nodes@)),
        forall|k: int| 0 <= k < r@.len() ==> (#[trigger] r@[k])@.len() > 0,
        forall|k: int, j: int| 0 <= k < r@.len() && 0 <= j < r@[k]@.len() ==> (#[trigger] r@[k]@[j]).wf(),
{
    let raw_lines = crate::markup::extract_lines(nodes);
    let ghost models = crate::markup::lines_models(raw_lines@);
    let mut out: Vec<Vec<HocrWord>> = Vec::new();
    let mut k: usize = 0;
    proof {
        assert(models.take(0) =~= Seq::<Seq<WordModel>>::empty());
        assert(crate::markup::lines_models(out@) =~= spec_document_lines(models.take(0)));
    }
    while k < raw_lines.len()
        invariant
            models == crate::markup::lines_models(raw_lines@),
            models == crate::markup::spec_lines_of(nodes@),
            forall|a: int, b: int| 0 <= a < raw_lines@.len() && 0 <= b < raw_lines@[a]@.len()
                ==> (#[trigger] raw_lines@[a]@[b]).wf(),
            k <= raw_lines@.len(),
            crate::markup::lines_models(out@) == spec_document_lines(models.take(k as int)),
            forall|m: int| 0 <= m < out@.len() ==> (#[trigger] out@[m])@.len() > 0,
            forall|m: int, j: int| 0 <= m < out@.len() && 0 <= j < out@[m]@.len() ==> (#[trigger] out@[m]@[j]).wf(),
        decreases raw_lines@.len() - k,
    {
        proof {
            assert(models.take(k + 1).drop_last() =~= models.take(k as int));
            assert(models.take(k + 1).last() == models[k as int]);
            assert(models[k as int] == word_models(raw_lines@[k as int]@));
        }
        let merged = retokenize_line(&raw_lines[k]);
        proof {
            assert(word_models(merged@) == spec_merged_line(models[k as int]));
        }
        if merged.len() > 0 {
            out.push(merged);
        }
        proof {
            assert(crate::markup::lines_models(out@) =~= spec_document_lines(models.take(k + 1)));
        }
        k += 1;
    }
    proof {
        assert(models.take(models.len() as int) =~= models);
    }
    out
}

proof fn lemma_concat_text_head(ws: Seq<WordModel>)
    requires
        ws.len() > 0,
    ensures
        concat_text(ws) == ws[0].text + concat_text(ws.drop_first()),
    decreases ws.len(),
{
    if ws.len() == 1 {
        assert(ws.drop_first() =~= Seq::<WordModel>::empty());
        assert(ws.drop_last() =~= Seq::<WordModel>::empty());
        assert(concat_text(ws) =~= ws[0].text + concat_text(ws.drop_first()));
    } else {
        lemma_concat_text_head(ws.drop_last());
        assert(ws.drop_last().drop_first() =~= ws.drop_first().drop_last());
        assert(ws.drop_last()[0] == ws[0]);
        assert(ws.drop_first().last() == ws.last());
        assert(concat_text(ws) =~= ws[0].text + concat_text(ws.drop_first()));
    }
}

proof fn lemma_concat_tokens_head(ts: Seq<Seq<char>>)
    requires
        ts.len() > 0,
    ensures
        concat_tokens(ts) == ts[0] + concat_tokens(ts.drop_first()),
    decreases ts.len(),
{
    if ts.len() == 1 {
        assert(ts.drop_first() =~= Seq::<Seq<char>>::empty());
        assert(ts.drop_last() =~= Seq::<Seq<char>>::empty());
        assert(concat_tokens(ts) =~= ts[0] + concat_tokens(ts.drop_first()));
    } else {
        lemma_concat_tokens_head(ts.drop_last());
        assert(ts.drop_last().drop_first() =~= ts.drop_first().drop_last());
        assert(ts.drop_last()[0] == ts[0]);
        assert(ts.drop_first().last() == ts.last());
        assert(concat_tokens(ts) =~= ts[0] + concat_tokens(ts.drop_first()));
    }
}

/// For single-character words the concatenated text has one character per
/// word, in order.
proof fn lemma_concat_single(ws: Seq<WordModel>)
    requires
        forall|k: int| 0 <= k < ws.len() ==> (#[trigger] ws[k]).text.len() == 1,
    ensures
        concat_text(ws).len() == ws.len(),
        forall|m: int| 0 <= m < ws.len() ==> concat_text(ws)[m] == (#[trigger] ws[m]).text[0],
    decreases ws.len(),
{
    if ws.len() > 0 {
        assert(forall|k: int| 0 <= k < ws.drop_last().len() ==> (#[trigger] ws.drop_last()[k]).text.len() == 1);
        lemma_concat_single(ws.drop_last());
        assert forall|m: int| 0 <= m < ws.len() implies concat_text(ws)[m] == (#[trigger] ws[m]).text[0] by {
            if m < ws.len() - 1 {
                assert(ws.drop_last()[m] == ws[m]);
                assert(concat_text(ws)[m] == concat_text(ws.drop_last())[m]);
            } else {
                assert(concat_text(ws)[m] == ws.last().text[0]);
            }
        }
    }
}

/// The aligned case of text preservation, generalized over the cursor: when
/// the remaining tokens re-segment exactly the remaining single-character
/// words, every token matches at the cursor and folds exactly its characters.
proof fn lemma_retokenize_aligned(ws: Seq<WordModel>, tokens: Seq<Seq<char>>, i: int)
    requires
        forall|k: int| 0 <= k < ws.len() ==> (#[trigger] ws[k]).text.len() == 1,
        forall|k: int| 0 <= k < tokens.len() ==> (#[trigger] tokens[k]).len() > 0,
        0 <= i <= ws.len(),
        concat_tokens(tokens) == concat_text(ws.skip(i)),
    ensures
        spec_retokenize(ws, tokens, i).len() == tokens.len(),
        forall|k: int| 0 <= k < tokens.len() ==> (#[trigger] spec_retokenize(ws, tokens, i)[k]).text == tokens[k],
        concat_text(spec_retokenize(ws, tokens, i)) == concat_tokens(tokens),
    decreases tokens.len(),
{
    let out = spec_retokenize(ws, tokens, i);
    if tokens.len() == 0 {
        assert(concat_text(out) =~= concat_tokens(tokens));
    } else {
        let t = tokens[0];
        let rest = tokens.drop_first();
        let rem = ws.skip(i);
        assert(forall|k: int| 0 <= k < rem.len() ==> (#[trigger] rem[k]).text.len() == 1);
        lemma_concat_single(rem);
        lemma_concat_tokens_head(tokens);
        let l = t.len() as int;
        assert(concat_tokens(rest).len() >= 0);
        assert(rem.len() >= l);
        assert(i < ws.len());
        assert(rem[0] == ws[i]);
        assert(concat_text(rem)[0] == ws[i].text[0]);
        assert(t[0] == concat_tokens(tokens)[0]);
        assert(ws[i].text[0] == t[0]);
        assert(first_match(ws, i, t[0]) == Some(i));
        let end = i + l;
        let sub = ws.subrange(i, end);
        let folded = spec_fold(sub);
        assert(forall|k: int| 0 <= k < sub.len() ==> (#[trigger] sub[k]).text.len() == 1);
        lemma_fold_text(sub);
        lemma_concat_single(sub);
        assert forall|m: int| 0 <= m < l implies concat_text(sub)[m] == t[m] by {
            assert(sub[m] == ws[i + m]);
            assert(rem[m] == ws[i + m]);
            assert(concat_text(rem)[m] == (t + concat_tokens(rest))[m]);
        }
        assert(folded.text =~= t);
        let tail = ws.skip(end);
        assert(forall|k: int| 0 <= k < tail.len() ==> (#[trigger] tail[k]).text.len() == 1);
        lemma_concat_single(tail);
        assert forall|m: int| 0 <= m < tail.len() implies concat_text(tail)[m] == concat_tokens(rest)[m] by {
            assert(tail[m] == ws[end + m]);
            assert(rem[l + m] == ws[end + m]);
            assert(concat_text(rem)[l + m] == (t + concat_tokens(rest))[l + m]);
        }
        assert(concat_text(tail) =~= concat_tokens(rest));
        lemma_retokenize_aligned(ws, rest, end);
        let outrest = spec_retokenize(ws, rest, end);
        assert(ws.subrange(i, i) =~= Seq::<WordModel>::empty());
        assert(out =~= seq![folded] + outrest);
        assert forall|k: int| 0 <= k < tokens.len() implies (#[trigger] out[k]).text == tokens[k] by {
            if k == 0 {
                assert(out[0] == folded);
            } else {
                assert(out[k] == outrest[k - 1]);
                assert(rest[k - 1] == tokens[k]);
            }
        }
        lemma_concat_text_head(out);
        assert(out.drop_first() =~= outrest);
        assert(concat_text(out) =~= concat_tokens(tokens));
    }
}

/// Re-tokenization is text-preserving: when every raw word holds a single
/// character and the token list is exactly a segmentation of the line's
/// concatenated text into non-empty tokens, the merged words' texts are
/// exactly the tokens, in order, and their concatenation reproduces the
/// tokenizer's joined output.
pub proof fn lemma_retokenize_text_preserving(ws: Seq<WordModel>, tokens: Seq<Seq<char>>)
    requires
        forall|k: int| 0 <= k < ws.len() ==> (#[trigger] ws[k]).text.len() == 1,
        forall|k: int| 0 <= k < tokens.len() ==> (#[trigger] tokens[k]).len() > 0,
        concat_tokens(tokens) == concat_text(ws),
    ensures
        spec_retokenize(ws, tokens, 0).len() == tokens.len(),
        forall|k: int| 0 <= k < tokens.len() ==> (#[trigger] spec_retokenize(ws, tokens, 0)[k]).text == tokens[k],
        concat_text(spec_retokenize(ws, tokens, 0)) == concat_tokens(tokens),
{
    assert(ws.skip(0) =~= ws);
    lemma_retokenize_aligned(ws, tokens, 0);
}

/// The concatenated text of a line's raw words, in order.
pub fn concat_words_text(words: &Vec<HocrWord>) -> (r: String)
    ensures
        r@ == concat_text(word_models(words@)),
{
    let mut r = String::new();
    let mut p: usize = 0;
    proof {
        assert(word_models(words@.take(0)) =~= Seq::<WordModel>::empty());
    }
    while p < words.len()
        invariant
            p <= words@.len(),
            r@ == concat_text(word_models(words@.take(p as int))),
        decreases words@.len() - p,
    {
        r.append(words[p].text.as_str());
        proof {
            assert(word_models(words@.take(p + 1)).drop_last() =~= word_models(words@.take(p as int)));
            assert(word_models(words@.take(p + 1)).last() == words@[p as int]@);
        }
        p += 1;
    }
    proof {
        assert(word_models(words@.take(words@.len() as int)) =~= word_models(words@));
    }
    r
}

} // verus!
