//! The ranker: scores each page that matches a query by link topology and
//! keyword density, and returns the matches in descending score order with
//! ties kept in store order.

use vstd::prelude::*;
use crate::page::{
    inbound_count, lemma_filter_sub, query_matches, rows_view, wf_rows, PageModel, Ranking,
};
use crate::store::{calculate_links_from, find, DatabaseConnection, StoreError};
use crate::text::{
    chars_of, count_occ, count_pat, find_whole_word, has_whole_word, lemma_count_occ_bound,
    lower_seq, sat_add, sat_add_usize, split_char_seq, to_lower_vec,
};

verus! {

/// The ranking formula: outbound links plus inbound links plus keyword
/// hits, plus ten for a whole-word match of the full query.
pub open spec fn rank_formula(outb: int, inb: int, hits: int, whole: bool) -> int {
    outb + inb + hits + if whole {
        10int
    } else {
        0int
    }
}

/// Computes a page's relevance score from its three counts and the
/// whole-word bonus.
pub fn compute_rank(
    link_to_count: usize,
    link_from_count: usize,
    search_word_appearance: usize,
    has_whole_word: bool,
) -> (r: usize)
    requires
        rank_formula(
            link_to_count as int,
            link_from_count as int,
            search_word_appearance as int,
            has_whole_word,
        ) <= usize::MAX,
    ensures
        r == rank_formula(
            link_to_count as int,
            link_from_count as int,
            search_word_appearance as int,
            has_whole_word,
        ),
{
    let mut res = link_from_count + link_to_count + search_word_appearance;
    if has_whole_word {
        res += 10;
    }
    res
}

/// The score is monotonically non-decreasing in each count, and awarding
/// the bonus never lowers it.
pub proof fn lemma_rank_monotone(
    a1: int,
    b1: int,
    c1: int,
    w1: bool,
    a2: int,
    b2: int,
    c2: int,
    w2: bool,
)
    requires
        a1 <= a2,
        b1 <= b2,
        c1 <= c2,
        w1 ==> w2,
    ensures
        rank_formula(a1, b1, c1, w1) <= rank_formula(a2, b2, c2, w2),
{
}

/// Adding the whole-word bonus strictly increases the score.
pub proof fn lemma_rank_bonus_strict(a: int, b: int, c: int)
    ensures
        rank_formula(a, b, c, false) < rank_formula(a, b, c, true),
{
}

/// Keyword hits of the query tokens in a text, summed token by token with
/// saturating addition.
pub open spec fn appearance_tokens(tokens: Seq<Seq<char>>, text: Seq<char>) -> int
    decreases tokens.len(),
{
    if tokens.len() == 0 {
        0
    } else {
        sat_add(count_occ(text, tokens[0]) as int, appearance_tokens(tokens.skip(1), text))
    }
}

/// Case-insensitive keyword hits: both query and text are lowercased, the
/// query is split on spaces, and each token's occurrences in the text are
/// counted as plain substrings.
pub open spec fn spec_appearance(q: Seq<char>, text: Seq<char>) -> int {
    appearance_tokens(split_char_seq(lower_seq(q), ' '), lower_seq(text))
}

/// Counts, case-insensitively, how often each space-separated token of
/// `search_word` occurs in `string`.
pub fn compute_search_word_appearance(search_word: &str, string: &str) -> (r: usize)
    ensures
        r == spec_appearance(search_word@, string@),
{
    let q = to_lower_vec(&chars_of(search_word));
    let text = to_lower_vec(&chars_of(string));
    let tokens = crate::text::split_tokens(&q, ' ');
    let ghost dv = tokens.deep_view();
    let mut acc: usize = 0;
    let mut i: usize = tokens.len();
    proof {
        assert(dv.skip(dv.len() as int).len() == 0);
    }
    while i > 0
        invariant
            i <= tokens@.len(),
            dv == tokens.deep_view(),
            dv.len() == tokens@.len(),
            dv == split_char_seq(lower_seq(search_word@), ' '),
            text@ == lower_seq(string@),
            acc == appearance_tokens(dv.skip(i as int), text@),
        decreases i,
    {
        i -= 1;
        let c = count_pat(&text, &tokens[i]);
        acc = sat_add_usize(c, acc);
        proof {
            assert(dv.skip(i as int)[0] == dv[i as int]);
            assert(dv.skip(i as int).skip(1) =~~= dv.skip(i + 1));
            assert(tokens@[i as int]@ == dv[i as int]);
        }
    }
    proof {
        assert(dv.skip(0) =~~= dv);
    }
    acc
}

/// A page with its computed relevance score.
pub struct RankedPage {
    pub rank: usize,
    pub page: Ranking,
}

/// Ghost model of a scored page.
pub ghost struct RankedModel {
    pub rank: int,
    pub page: PageModel,
}

impl View for RankedPage {
    type V = RankedModel;

    open spec fn view(&self) -> RankedModel {
        RankedModel { rank: self.rank as int, page: self.page@ }
    }
}

/// The models of a sequence of scored pages.
pub open spec fn ranked_view(v: Seq<RankedPage>) -> Seq<RankedModel> {
    v.map_values(|x: RankedPage| x@)
}

/// The page's recorded link list, or empty if none was recorded.
pub open spec fn links_or_empty(p: PageModel) -> Seq<char> {
    match p.links_to {
        Some(l) => l,
        None => Seq::<char>::empty(),
    }
}

/// The page's recorded content, or empty if none was recorded.
pub open spec fn content_or_empty(p: PageModel) -> Seq<char> {
    match p.content {
        Some(c) => c,
        None => Seq::<char>::empty(),
    }
}

/// Outbound link count: the fields of the recorded link list split on the
/// `:::` delimiter — one more than the delimiter count, so a page with an
/// empty (or missing) list still counts one.
pub open spec fn outbound_count(p: PageModel) -> int {
    count_occ(links_or_empty(p), ":::"@) as int + 1
}

/// A page's score against query `q` within table `rows`: outbound count,
/// inbound count, keyword hits in url and content, and the whole-word
/// bonus, combined with saturating addition.
pub open spec fn spec_score(rows: Seq<PageModel>, p: PageModel, q: Seq<char>) -> int {
    let base = sat_add(
        sat_add(outbound_count(p), inbound_count(rows, p.url) as int),
        sat_add(spec_appearance(q, p.url), spec_appearance(q, content_or_empty(p))),
    );
    if has_whole_word(p.url, q) || has_whole_word(content_or_empty(p), q) {
        sat_add(base, 10)
    } else {
        base
    }
}

/// The pages matching `q`, in store order, each with its score.
pub open spec fn scored_seq(rows: Seq<PageModel>, q: Seq<char>) -> Seq<RankedModel> {
    rows.filter((|p: PageModel| query_matches(p, split_char_seq(q, ' ')))).map_values(
        (|p: PageModel| RankedModel { rank: spec_score(rows, p, q), page: p }),
    )
}

/// Insertion into a descending run: `x` goes after every element whose
/// rank is at least its own, so equal ranks keep their earlier order.
pub open spec fn insert_desc(sorted: Seq<RankedModel>, x: RankedModel) -> Seq<RankedModel>
    decreases sorted.len(),
{
    if sorted.len() > 0 && sorted[0].rank >= x.rank {
        seq![sorted[0]] + insert_desc(sorted.skip(1), x)
    } else {
        seq![x] + sorted
    }
}

/// Stable sort by descending rank, as iterated insertion.
pub open spec fn sort_desc(s: Seq<RankedModel>) -> Seq<RankedModel>
    decreases s.len(),
{
    if s.len() == 0 {
        Seq::<RankedModel>::empty()
    } else {
        insert_desc(sort_desc(s.drop_last()), s.last())
    }
}

/// Where the insertion lands: right before the first element whose rank
/// is smaller.
proof fn lemma_insert_desc_at(s: Seq<RankedModel>, x: RankedModel, j: int)
    requires
        0 <= j <= s.len(),
        forall|m: int| 0 <= m < j ==> (#[trigger] s[m]).rank >= x.rank,
        j < s.len() ==> s[j].rank < x.rank,
    ensures
        insert_desc(s, x) =~= s.take(j) + seq![x] + s.skip(j),
    decreases j,
{
    if j == 0 {
        assert(s.take(0) =~= Seq::<RankedModel>::empty());
        assert(s.skip(0) =~= s);
    } else {
        lemma_insert_desc_at(s.skip(1), x, j - 1);
        assert(s.skip(1).take(j - 1) =~= s.take(j).skip(1));
        assert(s.skip(1).skip(j - 1) =~= s.skip(j));
        assert(insert_desc(s, x) == seq![s[0]] + insert_desc(s.skip(1), x));
        assert(seq![s[0]] + (s.take(j).skip(1) + seq![x] + s.skip(j)) =~= s.take(j) + seq![x]
            + s.skip(j));
    }
}

/// Sorting keeps the length.
pub proof fn lemma_sort_desc_len(s: Seq<RankedModel>)
    ensures
        sort_desc(s).len() == s.len(),
    decreases s.len(),
{
    if s.len() > 0 {
        lemma_sort_desc_len(s.drop_last());
        lemma_insert_desc_len(sort_desc(s.drop_last()), s.last());
    }
}

proof fn lemma_insert_desc_len(s: Seq<RankedModel>, x: RankedModel)
    ensures
        insert_desc(s, x).len() == s.len() + 1,
    decreases s.len(),
{
    if s.len() > 0 && s[0].rank >= x.rank {
        lemma_insert_desc_len(s.skip(1), x);
    }
}

/// The sorted order really is descending in rank.
pub proof fn lemma_sort_desc_sorted(s: Seq<RankedModel>)
    ensures
        forall|i: int, j: int|
            0 <= i < j < sort_desc(s).len() ==> (#[trigger] sort_desc(s)[i]).rank
                >= (#[trigger] sort_desc(s)[j]).rank,
    decreases s.len(),
{
    if s.len() > 0 {
        lemma_sort_desc_sorted(s.drop_last());
        lemma_insert_desc_sorted(sort_desc(s.drop_last()), s.last());
    }
}

proof fn lemma_insert_desc_sorted(s: Seq<RankedModel>, x: RankedModel)
    requires
        forall|i: int, j: int|
            0 <= i < j < s.len() ==> (#[trigger] s[i]).rank >= (#[trigger] s[j]).rank,
    ensures
        forall|i: int, j: int|
            0 <= i < j < insert_desc(s, x).len() ==> (#[trigger] insert_desc(s, x)[i]).rank
                >= (#[trigger] insert_desc(s, x)[j]).rank,
    decreases s.len(),
{
    let out = insert_desc(s, x);
    if s.len() > 0 && s[0].rank >= x.rank {
        assert(forall|i: int, j: int|
            0 <= i < j < s.skip(1).len() ==> (#[trigger] s.skip(1)[i]).rank >= (#[trigger] s.skip(
                1,
            )[j]).rank);
        lemma_insert_desc_sorted(s.skip(1), x);
        lemma_insert_desc_len(s.skip(1), x);
        let rest = insert_desc(s.skip(1), x);
        assert forall|i: int, j: int| 0 <= i < j < out.len() implies (#[trigger] out[i]).rank
            >= (#[trigger] out[j]).rank by {
            if i == 0 {
                assert(out[0] == s[0]);
                assert(out[j] == rest[j - 1]);
                if rest.len() > 0 {
                    lemma_insert_desc_head(s.skip(1), x, s[0].rank);
                }
            } else {
                assert(out[i] == rest[i - 1]);
                assert(out[j] == rest[j - 1]);
            }
        }
    }
}

/// Every element of an insertion into a run headed by rank at least `cap`
/// stays at most `cap`.
proof fn lemma_insert_desc_head(s: Seq<RankedModel>, x: RankedModel, cap: int)
    requires
        cap >= x.rank,
        forall|m: int| 0 <= m < s.len() ==> cap >= (#[trigger] s[m]).rank,
    ensures
        forall|m: int| 0 <= m < insert_desc(s, x).len() ==> cap >= (#[trigger] insert_desc(
            s,
            x,
        )[m]).rank,
    decreases s.len(),
{
    if s.len() > 0 && s[0].rank >= x.rank {
        assert(forall|m: int| 0 <= m < s.skip(1).len() ==> cap >= (#[trigger] s.skip(1)[m]).rank);
        lemma_insert_desc_head(s.skip(1), x, cap);
        let rest = insert_desc(s.skip(1), x);
        assert forall|m: int| 0 <= m < insert_desc(s, x).len() implies cap
            >= (#[trigger] insert_desc(s, x)[m]).rank by {
            if m > 0 {
                assert(insert_desc(s, x)[m] == rest[m - 1]);
            }
        }
    }
}

/// Sorts the scored pages by descending rank, stably.
fn sort_ranked(v: Vec<RankedPage>) -> (r: Vec<RankedPage>)
    ensures
        ranked_view(r@) == sort_desc(ranked_view(v@)),
{
    let mut out: Vec<RankedPage> = Vec::new();
    let mut k: usize = 0;
    proof {
        assert(ranked_view(v@).take(0) =~= Seq::<RankedModel>::empty());
        assert(ranked_view(out@) =~= Seq::<RankedModel>::empty());
        assert(sort_desc(Seq::<RankedModel>::empty()) =~= Seq::<RankedModel>::empty());
    }
    while k < v.len()
        invariant
            k <= v@.len(),
            ranked_view(out@) == sort_desc(ranked_view(v@).take(k as int)),
        decreases v@.len() - k,
    {
        let x = RankedPage { rank: v[k].rank, page: v[k].page.clone() };
        assert(x@ == v@[k as int]@);
        let ghost sorted = ranked_view(out@);
        let mut j: usize = 0;
        while j < out.len() && out[j].rank >= x.rank
            invariant
                j <= out@.len(),
                sorted == ranked_view(out@),
                sorted.len() == out@.len(),
                x@.rank == x.rank as int,
                forall|m: int| 0 <= m < j ==> (#[trigger] sorted[m]).rank >= x.rank as int,
            decreases out@.len() - j,
        {
            assert(sorted[j as int].rank >= x.rank as int);
            j += 1;
        }
        assert(j < out@.len() ==> sorted[j as int].rank < x.rank as int);
        proof {
            lemma_insert_desc_at(sorted, x@, j as int);
        }
        out.insert(j, x);
        proof {
            assert(ranked_view(out@) =~= sorted.take(j as int) + seq![x@] + sorted.skip(
                j as int,
            ));
            let pre = ranked_view(v@).take(k as int);
            assert(ranked_view(v@).take(k + 1).drop_last() =~= pre);
            assert(ranked_view(v@).take(k + 1).last() == x@);
            assert(sort_desc(ranked_view(v@).take(k + 1)) == insert_desc(sort_desc(pre), x@));
        }
        k += 1;
    }
    proof {
        assert(ranked_view(v@).take(v@.len() as int) =~= ranked_view(v@));
    }
    out
}


/// Case-insensitive whole-word containment of `word` in `text`.
fn whole_word(text: &str, word: &str) -> (r: bool)
    ensures
        r == has_whole_word(text@, word@),
{
    let lt = to_lower_vec(&chars_of(text));
    let lw = to_lower_vec(&chars_of(word));
    find_whole_word(&lt, &lw)
}

/// Answers a keyword query: every page whose url or content contains a
/// query token, scored by the ranking formula, in descending score order
/// with ties in store order.
pub fn rank_pages(conn: &DatabaseConnection, search_word: &str) -> (r: Result<
    Vec<RankedPage>,
    StoreError,
>)
    requires
        wf_rows(conn@),
    ensures
        r matches Ok(v) ==> ranked_view(v@) == sort_desc(scored_seq(conn@, search_word@)),
{
    let matches = match find(conn, search_word) {
        Ok(m) => m,
        Err(e) => {
            return Err(e);
        },
    };
    let ghost q = search_word@;
    let ghost pred = (|p: PageModel| query_matches(p, split_char_seq(q, ' ')));
    let ghost filtered = conn@.filter(pred);
    let ghost scored = scored_seq(conn@, q);
    proof {
        assert(rows_view(matches@) == filtered);
        assert(scored.len() == filtered.len());
    }
    let mut ranked: Vec<RankedPage> = Vec::new();
    let mut i: usize = 0;
    proof {
        assert(ranked_view(ranked@) =~= scored.take(0));
    }
    while i < matches.len()
        invariant
            wf_rows(conn@),
            i <= matches@.len(),
            q == search_word@,
            rows_view(matches@) == filtered,
            filtered == conn@.filter(pred),
            pred == (|p: PageModel| query_matches(p, split_char_seq(q, ' '))),
            scored == scored_seq(conn@, q),
            scored.len() == filtered.len(),
            filtered.len() == matches@.len(),
            ranked_view(ranked@) == scored.take(i as int),
        decreases matches@.len() - i,
    {
        let ghost p = matches@[i as int]@;
        proof {
            assert(filtered[i as int] == p);
        }
        let links_str: &str = match &matches[i].links_to {
            Some(l) => l.as_str(),
            None => "",
        };
        proof {
            reveal_strlit("");
            assert(""@ =~= Seq::<char>::empty());
            assert(links_str@ == links_or_empty(p));
        }
        let links_chars = chars_of(links_str);
        let sep = chars_of(":::");
        let cnt = count_pat(&links_chars, &sep);
        let n_links = links_chars.len();
        proof {
            reveal_strlit(":::");
            assert(sep@.len() == 3);
            lemma_count_occ_bound(links_chars@, sep@);
            assert(3 * cnt <= n_links);
        }
        let link_to_count = cnt + 1;
        let link_from_count = match calculate_links_from(conn, matches[i].id) {
            Ok(n) => n,
            Err(e) => {
                return Err(e);
            },
        };
        proof {
            lemma_filter_sub(conn@, pred, i as int);
            let i1 = choose|i1: int| 0 <= i1 < conn@.len() && conn@[i1] == p;
            let i0 = choose|i0: int|
                0 <= i0 < conn@.len() && (#[trigger] conn@[i0]).id == matches@[i as int].id
                    && link_from_count == inbound_count(conn@, conn@[i0].url);
            if i0 < i1 {
                assert(conn@[i0].id < conn@[i1].id);
            }
            if i1 < i0 {
                assert(conn@[i1].id < conn@[i0].id);
            }
            assert(conn@[i0].url == p.url);
            assert(link_from_count == inbound_count(conn@, p.url));
        }
        let content_str: &str = match &matches[i].content {
            Some(c) => c.as_str(),
            None => "",
        };
        proof {
            reveal_strlit("");
            assert(""@ =~= Seq::<char>::empty());
            assert(content_str@ == content_or_empty(p));
        }
        let hits = sat_add_usize(
            compute_search_word_appearance(search_word, matches[i].url.as_str()),
            compute_search_word_appearance(search_word, content_str),
        );
        let has_word = whole_word(matches[i].url.as_str(), search_word) || whole_word(
            content_str,
            search_word,
        );
        let base = sat_add_usize(sat_add_usize(link_to_count, link_from_count), hits);
        let score = if has_word {
            sat_add_usize(base, 10)
        } else {
            base
        };
        proof {
            assert(score == spec_score(conn@, p, q));
        }
        let ghost pre = ranked_view(ranked@);
        ranked.push(RankedPage { rank: score, page: matches[i].clone() });
        proof {
            assert(ranked_view(ranked@) =~= pre.push(RankedModel { rank: score as int, page: p }));
            assert(scored[i as int] == RankedModel { rank: spec_score(conn@, p, q), page: p });
            assert(scored.take(i + 1) =~= scored.take(i as int).push(scored[i as int]));
        }
        i += 1;
    }
    proof {
        assert(scored.take(scored.len() as int) =~= scored);
    }
    Ok(sort_ranked(ranked))
}


/// Sorting permutes: the multiset of scored pages is unchanged, so every
/// match appears in the ranked output exactly once.
pub proof fn lemma_sort_desc_permutes(s: Seq<RankedModel>)
    ensures
        sort_desc(s).to_multiset() == s.to_multiset(),
    decreases s.len(),
{
    broadcast use vstd::seq_lib::group_to_multiset_ensures;

    if s.len() > 0 {
        lemma_sort_desc_permutes(s.drop_last());
        lemma_insert_desc_permutes(sort_desc(s.drop_last()), s.last());
        assert(s =~= s.drop_last().push(s.last()));
    }
}

proof fn lemma_insert_desc_permutes(s: Seq<RankedModel>, x: RankedModel)
    ensures
        insert_desc(s, x).to_multiset() == s.to_multiset().insert(x),
    decreases s.len(),
{
    broadcast use vstd::seq_lib::group_to_multiset_ensures;
    broadcast use vstd::multiset::group_multiset_axioms;

    if s.len() > 0 && s[0].rank >= x.rank {
        lemma_insert_desc_permutes(s.skip(1), x);
        vstd::seq_lib::lemma_multiset_commutative(seq![s[0]], insert_desc(s.skip(1), x));
        assert(s =~= seq![s[0]] + s.skip(1));
        vstd::seq_lib::lemma_multiset_commutative(seq![s[0]], s.skip(1));
        assert(seq![s[0]].to_multiset().add(s.skip(1).to_multiset().insert(x))
            =~= seq![s[0]].to_multiset().add(s.skip(1).to_multiset()).insert(x));
    } else {
        vstd::seq_lib::lemma_multiset_commutative(seq![x], s);
        assert(seq![x] =~= Seq::<RankedModel>::empty().push(x));
        assert(Seq::<RankedModel>::empty().to_multiset() =~= vstd::multiset::Multiset::<RankedModel>::empty());
        assert(seq![x].to_multiset() =~= vstd::multiset::Multiset::<RankedModel>::empty().insert(x));
        assert(vstd::multiset::Multiset::<RankedModel>::empty().insert(x).add(s.to_multiset()) =~= s.to_multiset(
        ).insert(x));
    }
}

} // verus!
