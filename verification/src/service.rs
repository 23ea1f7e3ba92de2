//! The decisions the conversion service makes around the calls into the
//! conversion engine: which candidates it offers, which part of the text
//! before the caret it hands over as context, and how it answers a request
//! for AI-assisted conversion.
use vstd::prelude::*;
use crate::text::{
    lacks, lemma_char_pos_bounds, char_pos, split_at_char, split_char, lemma_split_step,
    lemma_split_single,
};

verus! {

/// The gRPC service that fronts the conversion engine. It holds no state:
/// the engine keeps the composing text.
#[derive(Debug, Default)]
pub struct MyAzookeyService;

/// A conversion candidate: the text to insert, a note shown beside it, and
/// how many characters of the composing text it covers.
#[derive(Debug, Clone)]
pub struct Suggestion {
    pub text: String,
    pub subtext: String,
    pub corresponding_count: i32,
}

pub struct SuggestionView {
    pub text: Seq<char>,
    pub subtext: Seq<char>,
    pub corresponding_count: i32,
}

impl View for Suggestion {
    type V = SuggestionView;

    open spec fn view(&self) -> SuggestionView {
        SuggestionView {
            text: self.text@,
            subtext: self.subtext@,
            corresponding_count: self.corresponding_count,
        }
    }
}

pub open spec fn suggestions_view(s: Seq<Suggestion>) -> Seq<SuggestionView> {
    s.map_values(|x: Suggestion| x@)
}

/// Some candidate in `s` has the text `t`.
pub open spec fn has_text(s: Seq<SuggestionView>, t: Seq<char>) -> bool {
    exists|k: int| 0 <= k < s.len() && (#[trigger] s[k]).text == t
}

/// The candidates in order, each dropped when an earlier one has the same
/// text.
pub open spec fn dedup_by_text(s: Seq<SuggestionView>) -> Seq<SuggestionView>
    decreases s.len(),
{
    if s.len() == 0 {
        Seq::empty()
    } else {
        let before = dedup_by_text(s.drop_last());
        if has_text(before, s.last().text) {
            before
        } else {
            before.push(s.last())
        }
    }
}

/// The candidates to offer: the engine's, without repeated texts.
pub fn dedup_suggestions(candidates: Vec<Suggestion>) -> (r: Vec<Suggestion>)
    ensures
        suggestions_view(r@) == dedup_by_text(suggestions_view(candidates@)),
{
    let ghost all = suggestions_view(candidates@);
    let mut kept: Vec<Suggestion> = Vec::new();
    assert(all.take(0) =~= Seq::<SuggestionView>::empty());
    assert(suggestions_view(kept@) =~= Seq::<SuggestionView>::empty());
    for c in it: candidates
        invariant
            it.seq() == candidates@,
            all == suggestions_view(candidates@),
            suggestions_view(kept@) == dedup_by_text(all.take(it.index() as int)),
    {
        let ghost k0 = it.index() as int;
        proof {
            assert(all.take(k0 + 1).drop_last() =~= all.take(k0));
            assert(all.take(k0 + 1).last() == c@);
        }
        let mut seen = false;
        let mut j: usize = 0;
        while j < kept.len()
            invariant
                0 <= j <= kept.len(),
                seen == exists|k: int| 0 <= k < j && (#[trigger] kept@[k]).text@ == c.text@,
            decreases kept.len() - j,
        {
            if kept[j].text == c.text {
                seen = true;
            }
            j = j + 1;
        }
        let ghost view_before = suggestions_view(kept@);
        proof {
            if seen {
                let k = choose|k: int| 0 <= k < j && (#[trigger] kept@[k]).text@ == c.text@;
                assert(view_before[k].text == c@.text);
            } else {
                assert forall|k: int| 0 <= k < view_before.len() implies (#[trigger] view_before[k]).text != c@.text by {
                    assert(view_before[k].text == kept@[k].text@);
                }
            }
        }
        if !seen {
            let ghost cv = c@;
            kept.push(c);
            assert(suggestions_view(kept@) =~= view_before.push(cv));
        }
    }
    assert(all.take(all.len() as int) =~= all);
    kept
}

/// The texts of the offered candidates are pairwise different.
pub proof fn lemma_dedup_texts_distinct(s: Seq<SuggestionView>)
    ensures
        forall|a: int, b: int|
            #![trigger dedup_by_text(s)[a], dedup_by_text(s)[b]]
            0 <= a < b < dedup_by_text(s).len() ==> dedup_by_text(s)[a].text != dedup_by_text(
                s,
            )[b].text,
    decreases s.len(),
{
    if s.len() > 0 {
        lemma_dedup_texts_distinct(s.drop_last());
        let before = dedup_by_text(s.drop_last());
        if !has_text(before, s.last().text) {
            let d = before.push(s.last());
            assert forall|a: int, b: int| 0 <= a < b < d.len() implies #[trigger] d[a].text != #[trigger] d[b].text by {
                if b == d.len() - 1 {
                    assert(before[a].text != s.last().text);
                } else {
                    assert(d[a] == before[a] && d[b] == before[b]);
                }
            }
        }
    }
}

/// Every text the engine proposed is offered, and only such texts are.
pub proof fn lemma_dedup_keeps_every_text(s: Seq<SuggestionView>)
    ensures
        forall|i: int| 0 <= i < s.len() ==> has_text(dedup_by_text(s), #[trigger] s[i].text),
        forall|k: int|
            0 <= k < dedup_by_text(s).len() ==> has_text(s, #[trigger] dedup_by_text(s)[k].text),
    decreases s.len(),
{
    if s.len() > 0 {
        let front = s.drop_last();
        lemma_dedup_keeps_every_text(front);
        let before = dedup_by_text(front);
        let d = dedup_by_text(s);
        assert forall|i: int| 0 <= i < s.len() implies has_text(d, #[trigger] s[i].text) by {
            if i < s.len() - 1 {
                assert(s[i] == front[i]);
                let k = choose|k: int| 0 <= k < before.len() && (#[trigger] before[k]).text == front[i].text;
                assert(d[k] == before[k]);
            } else if !has_text(before, s.last().text) {
                assert(d[d.len() - 1] == s.last());
            }
        }
        assert forall|k: int| 0 <= k < d.len() implies has_text(s, #[trigger] d[k].text) by {
            if k < before.len() {
                assert(d[k] == before[k]);
                let i = choose|i: int| 0 <= i < front.len() && (#[trigger] front[i]).text == before[k].text;
                assert(s[i] == front[i]);
            } else {
                assert(d[k] == s[s.len() - 1]);
            }
        }
    }
}

/// A list without repeated texts is left as it is.
pub proof fn lemma_dedup_of_distinct(s: Seq<SuggestionView>)
    requires
        forall|a: int, b: int| 0 <= a < b < s.len() ==> (#[trigger] s[a]).text != (#[trigger] s[b]).text,
    ensures
        dedup_by_text(s) == s,
    decreases s.len(),
{
    if s.len() > 0 {
        let front = s.drop_last();
        assert forall|a: int, b: int| 0 <= a < b < front.len() implies (#[trigger] front[a]).text != (#[trigger] front[b]).text by {
            assert(front[a] == s[a] && front[b] == s[b]);
        }
        lemma_dedup_of_distinct(front);
        assert forall|k: int| 0 <= k < front.len() implies (#[trigger] front[k]).text != s.last().text by {
            assert(front[k] == s[k]);
        }
        assert(s =~= front.push(s.last()));
    }
}

/// Removing repeated texts twice is the same as removing them once.
pub proof fn lemma_dedup_idempotent(s: Seq<SuggestionView>)
    ensures
        dedup_by_text(dedup_by_text(s)) == dedup_by_text(s),
{
    lemma_dedup_texts_distinct(s);
    let d = dedup_by_text(s);
    assert forall|a: int, b: int| 0 <= a < b < d.len() implies (#[trigger] d[a]).text != (#[trigger] d[b]).text by {
    }
    lemma_dedup_of_distinct(d);
}

/// The last non-empty piece, or nothing when every piece is empty.
pub open spec fn last_nonempty(parts: Seq<Seq<char>>) -> Seq<char>
    decreases parts.len(),
{
    if parts.len() == 0 {
        Seq::empty()
    } else if parts.last().len() > 0 {
        parts.last()
    } else {
        last_nonempty(parts.drop_last())
    }
}

/// The context the engine is given: the last non-empty piece of the text
/// before the caret when it is cut at carriage returns.
pub fn trim_context(context: &str) -> (r: String)
    ensures
        r@ == last_nonempty(split_at_char(context@, '\r')),
{
    let parts = split_char(context, '\r');
    let ghost all = parts.deep_view();
    let mut i = parts.len();
    assert(all.take(i as int) =~= all);
    while i > 0
        invariant
            i <= parts.len(),
            all == parts.deep_view(),
            all == split_at_char(context@, '\r'),
            last_nonempty(all) == last_nonempty(all.take(i as int)),
        decreases i,
    {
        i = i - 1;
        assert(all[i as int] == parts@[i as int]@);
        assert(all.take(i + 1).last() == parts@[i as int]@);
        assert(all.take(i + 1).len() > 0);
        assert(all.take(i + 1).drop_last() =~= all.take(i as int));
        if !parts[i].as_str().is_empty() {
            assert(last_nonempty(all.take(i + 1)) == parts@[i as int]@);
            return parts[i].clone();
        }
    }
    assert(all.take(0) =~= Seq::<Seq<char>>::empty());
    String::new()
}

/// No piece of a split holds the separator.
pub proof fn lemma_split_pieces_lack(s: Seq<char>, sep: char)
    ensures
        forall|k: int| 0 <= k < split_at_char(s, sep).len() ==> lacks(#[trigger] split_at_char(s, sep)[k], sep),
    decreases s.len(),
{
    lemma_char_pos_bounds(s, sep);
    let p = char_pos(s, sep);
    if p < s.len() {
        lemma_split_pieces_lack(s.skip(p as int + 1), sep);
        let rest = split_at_char(s.skip(p as int + 1), sep);
        assert forall|k: int| 0 <= k < split_at_char(s, sep).len() implies lacks(#[trigger] split_at_char(s, sep)[k], sep) by {
            if k > 0 {
                assert(split_at_char(s, sep)[k] == rest[k - 1]);
            }
        }
    } else {
        assert(split_at_char(s, sep)[0] == s);
    }
}

proof fn lemma_last_nonempty_is_a_piece(parts: Seq<Seq<char>>)
    ensures
        last_nonempty(parts).len() == 0 || exists|k: int| 0 <= k < parts.len() && #[trigger] parts[k] == last_nonempty(parts),
    decreases parts.len(),
{
    if parts.len() > 0 && parts.last().len() == 0 {
        lemma_last_nonempty_is_a_piece(parts.drop_last());
        if last_nonempty(parts).len() > 0 {
            let k = choose|k: int| 0 <= k < parts.drop_last().len() && #[trigger] parts.drop_last()[k] == last_nonempty(parts.drop_last());
            assert(parts[k] == parts.drop_last()[k]);
        }
    } else if parts.len() > 0 {
        assert(parts[parts.len() - 1] == parts.last());
    }
}

/// The context handed to the engine never holds a carriage return.
pub proof fn lemma_trimmed_context_is_one_line(context: Seq<char>)
    ensures
        lacks(last_nonempty(split_at_char(context, '\r')), '\r'),
{
    let parts = split_at_char(context, '\r');
    lemma_split_pieces_lack(context, '\r');
    lemma_last_nonempty_is_a_piece(parts);
}

/// How the service answers a request for AI-assisted conversion.
#[derive(Debug, Clone)]
pub struct IikanjiReply {
    pub success: bool,
    pub result: String,
    pub error: String,
}

/// The error shown when the AI-assisted conversion gave nothing back.
pub open spec fn conversion_failed_message() -> Seq<char> {
    "変換に失敗しました"@
}

/// The answer to an AI-assisted conversion request, from what the engine
/// gave back.
pub fn iikanji_reply(result: Option<String>) -> (r: IikanjiReply)
    ensures
        result is Some ==> r.success && r.result@ == result->0@ && r.error@.len() == 0,
        result is None ==> !r.success && r.result@.len() == 0 && r.error@ == conversion_failed_message(),
{
    match result {
        Some(text) => IikanjiReply { success: true, result: text, error: String::new() },
        None => IikanjiReply {
            success: false,
            result: String::new(),
            error: "変換に失敗しました".to_string(),
        },
    }
}

/// Splitting at a separator that joins two texts gives the pieces of the
/// first followed by the pieces of the second.
pub proof fn lemma_split_join(x: Seq<char>, y: Seq<char>, sep: char)
    ensures
        split_at_char(x + seq![sep] + y, sep) == split_at_char(x, sep) + split_at_char(y, sep),
    decreases x.len(),
{
    lemma_char_pos_bounds(x, sep);
    let p = char_pos(x, sep);
    if p >= x.len() {
        assert(lacks(x, sep));
        lemma_split_step(x, y, sep);
        lemma_split_single(x, sep);
    } else {
        let x1 = x.take(p as int);
        let x2 = x.skip(p as int + 1);
        assert(lacks(x1, sep));
        assert(x =~= x1 + seq![sep] + x2);
        assert(x + seq![sep] + y =~= x1 + seq![sep] + (x2 + seq![sep] + y));
        lemma_split_step(x1, x2 + seq![sep] + y, sep);
        lemma_split_step(x1, x2, sep);
        lemma_split_join(x2, y, sep);
        assert(split_at_char(x + seq![sep] + y, sep) =~= split_at_char(x, sep) + split_at_char(y, sep));
    }
}

/// The context is the line the caret is on: when the text after the last
/// carriage return is not empty, the trimmed context is exactly that text,
/// whatever comes before it; and carriage returns at the very end are
/// passed over, the context then being that of the text before them.
pub proof fn lemma_context_is_caret_line(before: Seq<char>, line: Seq<char>)
    ensures
        lacks(line, '\r') && line.len() > 0 ==> last_nonempty(split_at_char(before + seq!['\r'] + line, '\r')) == line,
        lacks(line, '\r') && line.len() > 0 ==> last_nonempty(split_at_char(line, '\r')) == line,
        last_nonempty(split_at_char(before + seq!['\r'], '\r')) == last_nonempty(split_at_char(before, '\r')),
{
    let empty = Seq::<char>::empty();
    lemma_split_join(before, line, '\r');
    if lacks(line, '\r') {
        lemma_split_single(line, '\r');
        let parts = split_at_char(before, '\r') + seq![line];
        assert(parts.last() == line);
    }
    assert(before + seq!['\r'] + empty =~= before + seq!['\r']);
    lemma_split_join(before, empty, '\r');
    assert(lacks(empty, '\r'));
    lemma_split_single(empty, '\r');
    let parts2 = split_at_char(before, '\r') + seq![empty];
    assert(parts2.last() == empty);
    assert(parts2.drop_last() =~= split_at_char(before, '\r'));
}

/// Each offered candidate is, field for field, the first candidate the
/// engine proposed with its text: a later candidate with a text already
/// offered never replaces the earlier one.
pub proof fn lemma_dedup_keeps_first_occurrence(s: Seq<SuggestionView>)
    ensures
        forall|k: int|
            0 <= k < dedup_by_text(s).len() ==> exists|i: int|
                0 <= i < s.len() && #[trigger] dedup_by_text(s)[k] == s[i] && forall|j: int|
                    0 <= j < i ==> (#[trigger] s[j]).text != s[i].text,
    decreases s.len(),
{
    if s.len() > 0 {
        let front = s.drop_last();
        lemma_dedup_keeps_first_occurrence(front);
        lemma_dedup_keeps_every_text(front);
        let before = dedup_by_text(front);
        let d = dedup_by_text(s);
        assert forall|k: int| 0 <= k < d.len() implies exists|i: int|
            0 <= i < s.len() && #[trigger] d[k] == s[i] && forall|j: int|
                0 <= j < i ==> (#[trigger] s[j]).text != s[i].text by {
            if k < before.len() {
                assert(d[k] == before[k]);
                let i = choose|i: int|
                    0 <= i < front.len() && #[trigger] before[k] == front[i] && forall|j: int|
                        0 <= j < i ==> (#[trigger] front[j]).text != front[i].text;
                assert(s[i] == front[i]);
                assert forall|j: int| 0 <= j < i implies (#[trigger] s[j]).text != s[i].text by {
                    assert(s[j] == front[j]);
                }
            } else {
                let i = s.len() - 1;
                assert(!has_text(before, s.last().text));
                assert(d[k] == s[i]);
                assert forall|j: int| 0 <= j < i implies (#[trigger] s[j]).text != s[i].text by {
                    assert(s[j] == front[j]);
                    if s[j].text == s[i].text {
                        assert(has_text(before, front[j].text));
                    }
                }
            }
        }
    }
}

} // verus!
