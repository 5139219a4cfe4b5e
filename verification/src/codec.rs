//! The dump codec. Encoding writes, per path, a block of text: the
//! path on one line; a counts line holding, for each kept (key, value)
//! pair, the number of physical lines the key and the value span,
//! followed by the count of dropped non-user attributes; then each
//! key's and value's literal text. The pre-declared line counts let
//! keys and values hold embedded line breaks without an escaping
//! scheme. Decoding runs a four-state automaton over the lines of the
//! concatenated blocks; a malformed stream, one on which the automaton
//! would read past its budgets, aborts the whole decode before any
//! write happens.

use vstd::prelude::*;
use vstd::string::*;
use crate::keys::{protected_name, KeyType};
use crate::numbers::{dec_digits, fmt_usize, parse_usize, parse_usize_spec};
use crate::store::{get_raw, StoreError};
use crate::text::{join_seq, join_str, split_seq, split_str};

verus! {

/// One decoded block: a path and its ordered (key, value) pairs.
pub struct DumpRecord {
    pub path: String,
    pub pairs: Vec<(String, String)>,
}

/// The mathematical shadow of a `DumpRecord`.
pub ghost struct SpecRecord {
    pub path: Seq<char>,
    pub pairs: Seq<(Seq<char>, Seq<char>)>,
}

impl View for DumpRecord {
    type V = SpecRecord;

    open spec fn view(&self) -> SpecRecord {
        SpecRecord { path: self.path@, pairs: self.pairs.deep_view() }
    }
}

impl DeepView for DumpRecord {
    type V = SpecRecord;

    open spec fn deep_view(&self) -> SpecRecord {
        self@
    }
}

/// How the decoder grows a field from its lines: the first kept line
/// stands alone, later ones are joined with a line break. A field whose
/// accumulator is still empty takes the next line without a break, so
/// leading empty lines of a field collapse.
pub open spec fn accum(acc: Seq<char>, line: Seq<char>) -> Seq<char> {
    if acc.len() == 0 {
        line
    } else {
        acc + seq!['\n'] + line
    }
}

/// The numbers among the tokens, in order; tokens that do not parse are
/// silently dropped, a leniency of the decoder.
pub open spec fn parse_tokens(toks: Seq<Seq<char>>) -> Seq<nat>
    decreases toks.len(),
{
    if toks.len() == 0 {
        Seq::empty()
    } else {
        match parse_usize_spec(toks.first()) {
            Option::Some(v) => seq![v] + parse_tokens(toks.drop_first()),
            Option::None => parse_tokens(toks.drop_first()),
        }
    }
}

/// The line budgets a counts line declares: its numeric tokens with the
/// last (the dropped count, unused by the decoder) taken off.
pub open spec fn counts_of_line(line: Seq<char>) -> Seq<nat> {
    let parsed = parse_tokens(split_seq(line, ' '));
    if parsed.len() > 0 {
        parsed.drop_last()
    } else {
        parsed
    }
}

/// Where the decoding automaton stands: at a path line, at a counts
/// line, or inside a key or value field.
pub ghost enum DecMode {
    AtPath,
    AtCounts,
    InKey,
    InValue,
}

/// The decoding automaton's state.
pub ghost struct DecState {
    /// Which kind of line comes next.
    pub mode: DecMode,
    /// The path of the block being decoded.
    pub path: Seq<char>,
    /// The line budgets of the block's fields, keys and values
    /// alternating.
    pub budgets: Seq<nat>,
    /// The index of the budget now being consumed.
    pub idx: int,
    /// How many lines of the current field are still owed.
    pub left: nat,
    /// The key field accumulated so far.
    pub key: Seq<char>,
    /// The value field accumulated so far.
    pub val: Seq<char>,
    /// The (key, value) pairs completed for the current block.
    pub pairs: Seq<(Seq<char>, Seq<char>)>,
}

pub open spec fn dec_init() -> DecState {
    DecState {
        mode: DecMode::AtPath,
        path: Seq::empty(),
        budgets: Seq::empty(),
        idx: 0,
        left: 0,
        key: Seq::empty(),
        val: Seq::empty(),
        pairs: Seq::empty(),
    }
}

/// The budget that position `idx` declares, or none left where the
/// position is out of range.
pub open spec fn next_left(budgets: Seq<nat>, idx: int) -> nat {
    if 0 <= idx < budgets.len() {
        budgets[idx]
    } else {
        0
    }
}

/// One line of input moves the automaton. Nothing means the stream is
/// malformed: a line arrived for a field position that has no budget,
/// or for a budget already exhausted, where the decoder cannot stay in
/// step and gives the whole stream up.
pub open spec fn dec_step(st: DecState, line: Seq<char>) -> Option<(DecState, Option<SpecRecord>)> {
    match st.mode {
        DecMode::AtPath => Option::Some(
            (
                DecState {
                    mode: DecMode::AtCounts,
                    path: line,
                    budgets: st.budgets,
                    idx: st.idx,
                    left: st.left,
                    key: st.key,
                    val: st.val,
                    pairs: st.pairs,
                },
                Option::None,
            ),
        ),
        DecMode::AtCounts => {
            let budgets = counts_of_line(line);
            Option::Some(
                (
                    DecState {
                        mode: DecMode::InKey,
                        path: st.path,
                        budgets: budgets,
                        idx: 0,
                        left: next_left(budgets, 0),
                        key: st.key,
                        val: st.val,
                        pairs: Seq::empty(),
                    },
                    Option::None,
                ),
            )
        },
        DecMode::InKey => {
            if st.idx >= st.budgets.len() || st.left == 0 {
                Option::None
            } else if st.left == 1 {
                Option::Some(
                    (
                        DecState {
                            mode: DecMode::InValue,
                            path: st.path,
                            budgets: st.budgets,
                            idx: st.idx + 1,
                            left: next_left(st.budgets, st.idx + 1),
                            key: accum(st.key, line),
                            val: st.val,
                            pairs: st.pairs,
                        },
                        Option::None,
                    ),
                )
            } else {
                Option::Some(
                    (
                        DecState {
                            mode: DecMode::InKey,
                            path: st.path,
                            budgets: st.budgets,
                            idx: st.idx,
                            left: (st.left - 1) as nat,
                            key: accum(st.key, line),
                            val: st.val,
                            pairs: st.pairs,
                        },
                        Option::None,
                    ),
                )
            }
        },
        DecMode::InValue => {
            if st.idx >= st.budgets.len() || st.left == 0 {
                Option::None
            } else if st.left == 1 {
                let pairs2 = st.pairs.push((st.key, accum(st.val, line)));
                if st.idx + 1 >= st.budgets.len() {
                    Option::Some(
                        (
                            DecState {
                                mode: DecMode::AtPath,
                                path: st.path,
                                budgets: st.budgets,
                                idx: st.idx + 1,
                                left: 0,
                                key: Seq::empty(),
                                val: Seq::empty(),
                                pairs: Seq::empty(),
                            },
                            Option::Some(SpecRecord { path: st.path, pairs: pairs2 }),
                        ),
                    )
                } else {
                    Option::Some(
                        (
                            DecState {
                                mode: DecMode::InKey,
                                path: st.path,
                                budgets: st.budgets,
                                idx: st.idx + 1,
                                left: next_left(st.budgets, st.idx + 1),
                                key: Seq::empty(),
                                val: Seq::empty(),
                                pairs: pairs2,
                            },
                            Option::None,
                        ),
                    )
                }
            } else {
                Option::Some(
                    (
                        DecState {
                            mode: DecMode::InValue,
                            path: st.path,
                            budgets: st.budgets,
                            idx: st.idx,
                            left: (st.left - 1) as nat,
                            key: st.key,
                            val: accum(st.val, line),
                            pairs: st.pairs,
                        },
                        Option::None,
                    ),
                )
            }
        },
    }
}

/// Runs the automaton over `lines` from `st`, collecting the records it
/// emits; nothing where any step finds the stream malformed.
pub open spec fn dec_run(st: DecState, lines: Seq<Seq<char>>) -> Option<
    (DecState, Seq<SpecRecord>),
>
    decreases lines.len(),
{
    if lines.len() == 0 {
        Option::Some((st, Seq::empty()))
    } else {
        match dec_step(st, lines.first()) {
            Option::None => Option::None,
            Option::Some((st2, em)) => match dec_run(st2, lines.drop_first()) {
                Option::None => Option::None,
                Option::Some((st3, recs)) => Option::Some(
                    (
                        st3,
                        match em {
                            Option::Some(r) => seq![r] + recs,
                            Option::None => recs,
                        },
                    ),
                ),
            },
        }
    }
}

/// `dec_run` with records already emitted put in front.
spec fn run_with(
    prefix: Seq<SpecRecord>,
    st: DecState,
    lines: Seq<Seq<char>>,
) -> Option<(DecState, Seq<SpecRecord>)> {
    match dec_run(st, lines) {
        Option::Some((st2, recs)) => Option::Some((st2, prefix + recs)),
        Option::None => Option::None,
    }
}

/// What decoding a whole dump text yields: the records of its blocks in
/// order, or nothing where the automaton loses step.
pub open spec fn spec_decode(text: Seq<char>) -> Option<Seq<SpecRecord>> {
    match dec_run(dec_init(), split_seq(text, '\n')) {
        Option::Some((_st, recs)) => Option::Some(recs),
        Option::None => Option::None,
    }
}

/// The executable decoder's phase, mirroring `DecMode`.
enum DecPhase {
    AtPath,
    AtCounts,
    InKey,
    InValue,
}

spec fn phase_mode(p: DecPhase) -> DecMode {
    match p {
        DecPhase::AtPath => DecMode::AtPath,
        DecPhase::AtCounts => DecMode::AtCounts,
        DecPhase::InKey => DecMode::InKey,
        DecPhase::InValue => DecMode::InValue,
    }
}

/// The budgets a vector of machine sizes stands for.
spec fn to_nats(s: Seq<usize>) -> Seq<nat> {
    s.map_values(|b: usize| b as nat)
}

proof fn lemma_parse_tokens_concat(a: Seq<Seq<char>>, b: Seq<Seq<char>>)
    ensures
        parse_tokens(a + b) == parse_tokens(a) + parse_tokens(b),
    decreases a.len(),
{
    if a.len() == 0 {
        assert(a + b =~~= b);
        assert(parse_tokens(a) + parse_tokens(b) =~= parse_tokens(b));
    } else {
        lemma_parse_tokens_concat(a.drop_first(), b);
        assert((a + b).first() == a.first());
        assert((a + b).drop_first() =~~= a.drop_first() + b);
        match parse_usize_spec(a.first()) {
            Option::Some(v) => {
                assert(parse_tokens(a + b) =~= parse_tokens(a) + parse_tokens(b));
            },
            Option::None => {},
        }
    }
}

/// Decodes the concatenated blocks of a dump text, as `spec_decode`
/// describes: the blocks' records in order, or nothing where the
/// stream is malformed and the automaton loses step.
#[verifier::loop_isolation(false)]
#[verifier::rlimit(100)]
pub fn decode(dump: &str) -> (r: Option<Vec<DumpRecord>>)
    ensures
        r is Some <==> spec_decode(dump@) is Some,
        r matches Some(v) ==> Option::Some(v.deep_view()) == spec_decode(dump@),
{
    let lines = split_str(dump, '\n');
    let ghost lv = split_seq(dump@, '\n');
    proof {
        assert(lv == lines.deep_view());
    }
    let mut phase = DecPhase::AtPath;
    let mut path = String::new();
    let mut budgets: Vec<usize> = Vec::new();
    let mut idx: usize = 0;
    let mut left: usize = 0;
    let mut key = String::new();
    let mut val = String::new();
    let mut pairs: Vec<(String, String)> = Vec::new();
    let mut out: Vec<DumpRecord> = Vec::new();
    let mut li: usize = 0;
    proof {
        assert(out.deep_view() =~~= Seq::<SpecRecord>::empty());
        assert(pairs.deep_view() =~~= Seq::<(Seq<char>, Seq<char>)>::empty());
        assert(to_nats(budgets@) =~~= Seq::<nat>::empty());
        assert(DecState {
            mode: phase_mode(phase),
            path: path@,
            budgets: to_nats(budgets@),
            idx: idx as int,
            left: left as nat,
            key: key@,
            val: val@,
            pairs: pairs.deep_view(),
        } =~~= dec_init());
        assert(lv.skip(0) =~~= lv);
        match dec_run(dec_init(), lv) {
            Option::Some((st3, recs)) => {
                assert(out.deep_view() + recs =~= recs);
            },
            Option::None => {},
        }
    }
    while li < lines.len()
        invariant
            lv == lines.deep_view(),
            0 <= li <= lines.len(),
            run_with(
                out.deep_view(),
                DecState {
                    mode: phase_mode(phase),
                    path: path@,
                    budgets: to_nats(budgets@),
                    idx: idx as int,
                    left: left as nat,
                    key: key@,
                    val: val@,
                    pairs: pairs.deep_view(),
                },
                lv.skip(li as int),
            ) == dec_run(dec_init(), lv),
        decreases lines.len() - li,
    {
        let ghost out_pre = out.deep_view();
        let ghost pre = DecState {
            mode: phase_mode(phase),
            path: path@,
            budgets: to_nats(budgets@),
            idx: idx as int,
            left: left as nat,
            key: key@,
            val: val@,
            pairs: pairs.deep_view(),
        };
        proof {
            assert(lv.skip(li as int).first() == lv[li as int]);
            assert(lv.skip(li as int).drop_first() =~~= lv.skip(li as int + 1));
            assert(lv[li as int] == lines@[li as int]@);
        }
        match phase {
            DecPhase::AtPath => {
                path = lines[li].clone();
                phase = DecPhase::AtCounts;
            },
            DecPhase::AtCounts => {
                let toks = split_str(lines[li].as_str(), ' ');
                let ghost tv = split_seq(lv[li as int], ' ');
                proof {
                    assert(tv == toks.deep_view());
                }
                budgets = Vec::new();
                let mut j: usize = 0;
                proof {
                    assert(to_nats(budgets@) =~~= parse_tokens(tv.take(0)));
                }
                while j < toks.len()
                    invariant
                        0 <= j <= toks.len(),
                        tv == toks.deep_view(),
                        to_nats(budgets@) == parse_tokens(tv.take(j as int)),
                    decreases toks.len() - j,
                {
                    proof {
                        assert(tv[j as int] == toks@[j as int]@);
                        assert(tv.take(j as int + 1) =~~= tv.take(j as int) + seq![tv[j as int]]);
                        lemma_parse_tokens_concat(tv.take(j as int), seq![tv[j as int]]);
                        assert(seq![tv[j as int]].drop_first() =~~= Seq::<Seq<char>>::empty());
                        assert(seq![tv[j as int]].first() == tv[j as int]);
                        assert(parse_tokens(Seq::<Seq<char>>::empty()) =~= Seq::<nat>::empty());
                    }
                    match parse_usize(toks[j].as_str()) {
                        Option::Some(v) => {
                            let ghost bv = budgets@;
                            budgets.push(v);
                            proof {
                                assert(parse_usize_spec(tv[j as int]) == Option::Some(v as nat));
                                assert(parse_tokens(seq![tv[j as int]]) =~= seq![v as nat]);
                                assert(to_nats(budgets@) =~~= to_nats(bv) + seq![v as nat]);
                                assert(to_nats(budgets@) =~~= parse_tokens(tv.take(j as int + 1)));
                            }
                        },
                        Option::None => {
                            proof {
                                assert(parse_usize_spec(tv[j as int]) is None);
                                assert(parse_tokens(seq![tv[j as int]]) =~= Seq::<nat>::empty());
                                assert(to_nats(budgets@) =~~= to_nats(budgets@) + Seq::<nat>::empty());
                                assert(to_nats(budgets@) =~~= parse_tokens(tv.take(j as int + 1)));
                            }
                        },
                    }
                    j = j + 1;
                }
                proof {
                    assert(tv.take(toks.len() as int) =~~= tv);
                }
                budgets.pop();
                proof {
                    if parse_tokens(tv).len() > 0 {
                        assert(to_nats(budgets@) =~~= counts_of_line(lv[li as int]));
                    } else {
                        assert(to_nats(budgets@) =~~= counts_of_line(lv[li as int]));
                    }
                }
                idx = 0;
                left = if budgets.len() > 0 {
                    budgets[0]
                } else {
                    0
                };
                pairs = Vec::new();
                phase = DecPhase::InKey;
                proof {
                    assert(pairs.deep_view() =~~= Seq::<(Seq<char>, Seq<char>)>::empty());
                    assert(left as nat == next_left(to_nats(budgets@), 0));
                }
            },
            DecPhase::InKey => {
                if idx >= budgets.len() || left == 0 {
                    proof {
                        assert(dec_step(pre, lv[li as int]) is None);
                        assert(dec_run(pre, lv.skip(li as int)) is None);
                    }
                    return Option::None;
                }
                if !key.as_str().is_empty() {
                    proof {
                        reveal_strlit("\n");
                        assert("\n"@ =~= seq!['\n']);
                    }
                    key.append("\n");
                }
                key.append(lines[li].as_str());
                proof {
                    assert(key@ == accum(pre.key, lv[li as int]));
                }
                if left == 1 {
                    idx = idx + 1;
                    left = if idx < budgets.len() {
                        budgets[idx]
                    } else {
                        0
                    };
                    phase = DecPhase::InValue;
                    proof {
                        assert(left as nat == next_left(to_nats(budgets@), idx as int));
                    }
                } else {
                    left = left - 1;
                }
            },
            DecPhase::InValue => {
                if idx >= budgets.len() || left == 0 {
                    proof {
                        assert(dec_step(pre, lv[li as int]) is None);
                        assert(dec_run(pre, lv.skip(li as int)) is None);
                    }
                    return Option::None;
                }
                if !val.as_str().is_empty() {
                    proof {
                        reveal_strlit("\n");
                        assert("\n"@ =~= seq!['\n']);
                    }
                    val.append("\n");
                }
                val.append(lines[li].as_str());
                proof {
                    assert(val@ == accum(pre.val, lv[li as int]));
                }
                if left == 1 {
                    let ghost prev_pairs = pairs.deep_view();
                    pairs.push((key, val));
                    key = String::new();
                    val = String::new();
                    proof {
                        assert(pairs.deep_view() =~~= prev_pairs.push((pre.key, accum(
                            pre.val,
                            lv[li as int],
                        ))));
                    }
                    idx = idx + 1;
                    if idx >= budgets.len() {
                        let ghost prev_out = out.deep_view();
                        out.push(DumpRecord { path: path.clone(), pairs: pairs });
                        pairs = Vec::new();
                        left = 0;
                        phase = DecPhase::AtPath;
                        proof {
                            assert(out.deep_view() =~~= prev_out.push(SpecRecord {
                                path: pre.path,
                                pairs: prev_pairs.push((pre.key, accum(pre.val, lv[li as int]))),
                            }));
                            assert(pairs.deep_view() =~~= Seq::<(Seq<char>, Seq<char>)>::empty());
                        }
                    } else {
                        left = budgets[idx];
                        phase = DecPhase::InKey;
                        proof {
                            assert(left as nat == next_left(to_nats(budgets@), idx as int));
                        }
                    }
                } else {
                    left = left - 1;
                }
            },
        }
        proof {
            let post = DecState {
                mode: phase_mode(phase),
                path: path@,
                budgets: to_nats(budgets@),
                idx: idx as int,
                left: left as nat,
                key: key@,
                val: val@,
                pairs: pairs.deep_view(),
            };
            let stepped = dec_step(pre, lv[li as int]);
            assert(stepped is Some);
            assert((stepped->0).0 =~~= post);
            let em = (stepped->0).1;
            match dec_run(post, lv.skip(li as int + 1)) {
                Option::Some((st3, recs)) => {
                    match em {
                        Option::Some(r) => {
                            assert(out.deep_view() =~~= out_pre.push(r));
                            assert(out_pre + (seq![r] + recs) =~= out.deep_view() + recs);
                        },
                        Option::None => {
                            assert(out.deep_view() == out_pre);
                        },
                    }
                },
                Option::None => {},
            }
        }
        li = li + 1;
    }
    proof {
        assert(lv.skip(lines.len() as int) =~~= Seq::<Seq<char>>::empty());
    }
    Option::Some(out)
}


/// The physical lines of a field: its text split at line breaks.
pub open spec fn field_lines(s: Seq<char>) -> Seq<Seq<char>> {
    split_seq(s, '\n')
}

/// The line budgets a block declares for its pairs: the line count of
/// each key and each value, alternating.
pub open spec fn budget_list(pairs: Seq<(Seq<char>, Seq<char>)>) -> Seq<nat>
    decreases pairs.len(),
{
    if pairs.len() == 0 {
        Seq::empty()
    } else {
        seq![field_lines(pairs.first().0).len(), field_lines(pairs.first().1).len()]
            + budget_list(pairs.drop_first())
    }
}

/// The budgets written as decimal tokens, in the same order.
pub open spec fn budget_tokens(pairs: Seq<(Seq<char>, Seq<char>)>) -> Seq<Seq<char>>
    decreases pairs.len(),
{
    if pairs.len() == 0 {
        Seq::empty()
    } else {
        seq![
            dec_digits(field_lines(pairs.first().0).len()),
            dec_digits(field_lines(pairs.first().1).len()),
        ] + budget_tokens(pairs.drop_first())
    }
}

/// The counts line of a block: the budget tokens and then the dropped
/// count, joined with single spaces.
pub open spec fn counts_line(pairs: Seq<(Seq<char>, Seq<char>)>, dropped: nat) -> Seq<char> {
    join_seq(budget_tokens(pairs) + seq![dec_digits(dropped)], ' ')
}

/// The text of a block's pairs: each key and each value followed by a
/// line break, in order.
pub open spec fn pairs_text(pairs: Seq<(Seq<char>, Seq<char>)>) -> Seq<char>
    decreases pairs.len(),
{
    if pairs.len() == 0 {
        Seq::empty()
    } else {
        pairs.first().0 + seq!['\n'] + pairs.first().1 + seq!['\n'] + pairs_text(
            pairs.drop_first(),
        )
    }
}

/// The whole text of one encoded block, final line break included.
pub open spec fn block_text(r: SpecRecord, dropped: nat) -> Seq<char> {
    r.path + seq!['\n'] + counts_line(r.pairs, dropped) + seq!['\n'] + pairs_text(r.pairs)
}

/// The lines of one encoded block.
pub open spec fn block_lines(r: SpecRecord, dropped: nat) -> Seq<Seq<char>> {
    seq![r.path, counts_line(r.pairs, dropped)] + pairs_lines(r.pairs)
}

/// The lines of a block's pairs.
pub open spec fn pairs_lines(pairs: Seq<(Seq<char>, Seq<char>)>) -> Seq<Seq<char>>
    decreases pairs.len(),
{
    if pairs.len() == 0 {
        Seq::empty()
    } else {
        field_lines(pairs.first().0) + field_lines(pairs.first().1) + pairs_lines(
            pairs.drop_first(),
        )
    }
}

proof fn lemma_budget_tokens_concat(a: Seq<(Seq<char>, Seq<char>)>, b: Seq<(Seq<char>, Seq<char>)>)
    ensures
        budget_tokens(a + b) == budget_tokens(a) + budget_tokens(b),
        budget_list(a + b) == budget_list(a) + budget_list(b),
    decreases a.len(),
{
    if a.len() == 0 {
        assert(a + b =~~= b);
        assert(budget_tokens(a) + budget_tokens(b) =~~= budget_tokens(b));
        assert(budget_list(a + b) =~= budget_list(b));
        assert(budget_list(a) + budget_list(b) =~= budget_list(b));
    } else {
        lemma_budget_tokens_concat(a.drop_first(), b);
        assert((a + b).first() == a.first());
        assert((a + b).drop_first() =~~= a.drop_first() + b);
        assert(budget_tokens(a + b) =~~= budget_tokens(a) + budget_tokens(b));
        assert(budget_list(a + b) =~= budget_list(a) + budget_list(b));
    }
}

proof fn lemma_pairs_text_concat(a: Seq<(Seq<char>, Seq<char>)>, b: Seq<(Seq<char>, Seq<char>)>)
    ensures
        pairs_text(a + b) == pairs_text(a) + pairs_text(b),
    decreases a.len(),
{
    if a.len() == 0 {
        assert(a + b =~~= b);
        assert(pairs_text(a) + pairs_text(b) =~= pairs_text(b));
    } else {
        lemma_pairs_text_concat(a.drop_first(), b);
        assert((a + b).first() == a.first());
        assert((a + b).drop_first() =~~= a.drop_first() + b);
        assert(pairs_text(a + b) =~= pairs_text(a) + pairs_text(b));
    }
}

/// Encodes one block: the path line, the counts line, then each key
/// and value on its own budgeted lines, as `block_text` describes.
#[verifier::loop_isolation(false)]
pub fn encode_block(path: &str, pairs: &Vec<(String, String)>, dropped: usize) -> (r: String)
    ensures
        r@ == block_text(SpecRecord { path: path@, pairs: pairs.deep_view() }, dropped as nat),
{
    let ghost dv = pairs.deep_view();
    proof {
        reveal_strlit("\n");
        reveal_strlit(" ");
        assert("\n"@ =~= seq!['\n']);
        assert(" "@ =~= seq![' ']);
    }
    let mut toks: Vec<String> = Vec::new();
    let mut i: usize = 0;
    proof {
        assert(toks.deep_view() =~~= budget_tokens(dv.take(0)));
    }
    while i < pairs.len()
        invariant
            dv == pairs.deep_view(),
            0 <= i <= pairs.len(),
            toks.deep_view() == budget_tokens(dv.take(i as int)),
        decreases pairs.len() - i,
    {
        proof {
            assert(dv[i as int].0 == pairs@[i as int].0@);
            assert(dv[i as int].1 == pairs@[i as int].1@);
        }
        let klines = split_str(pairs[i].0.as_str(), '\n');
        let vlines = split_str(pairs[i].1.as_str(), '\n');
        let ghost tv0 = toks.deep_view();
        toks.push(fmt_usize(klines.len()));
        toks.push(fmt_usize(vlines.len()));
        proof {
            assert(klines.deep_view().len() == klines@.len());
            assert(vlines.deep_view().len() == vlines@.len());
            assert(dv.take(i as int + 1) =~~= dv.take(i as int) + seq![dv[i as int]]);
            lemma_budget_tokens_concat(dv.take(i as int), seq![dv[i as int]]);
            assert(seq![dv[i as int]].drop_first() =~~= Seq::<(Seq<char>, Seq<char>)>::empty());
            assert(budget_tokens(Seq::<(Seq<char>, Seq<char>)>::empty()) =~~= Seq::<
                Seq<char>,
            >::empty());
            assert(budget_tokens(seq![dv[i as int]]) =~~= seq![
                dec_digits(field_lines(dv[i as int].0).len()),
                dec_digits(field_lines(dv[i as int].1).len()),
            ]);
            assert(toks.deep_view() =~~= tv0 + budget_tokens(seq![dv[i as int]]));
            assert(toks.deep_view() =~~= budget_tokens(dv.take(i as int + 1)));
        }
        i = i + 1;
    }
    toks.push(fmt_usize(dropped));
    proof {
        assert(dv.take(pairs.len() as int) =~~= dv);
        assert(toks.deep_view() =~~= budget_tokens(dv) + seq![dec_digits(dropped as nat)]);
    }
    let counts = join_str(&toks, " ");
    let mut r = path.to_owned();
    r.append("\n");
    r.append(counts.as_str());
    r.append("\n");
    let ghost header = path@ + seq!['\n'] + counts_line(dv, dropped as nat) + seq!['\n'];
    proof {
        assert(r@ =~= header);
        assert(r@ =~= header + pairs_text(dv.take(0)));
    }
    let mut j: usize = 0;
    while j < pairs.len()
        invariant
            dv == pairs.deep_view(),
            0 <= j <= pairs.len(),
            r@ == header + pairs_text(dv.take(j as int)),
        decreases pairs.len() - j,
    {
        proof {
            assert(dv[j as int].0 == pairs@[j as int].0@);
            assert(dv[j as int].1 == pairs@[j as int].1@);
        }
        r.append(pairs[j].0.as_str());
        r.append("\n");
        r.append(pairs[j].1.as_str());
        r.append("\n");
        proof {
            assert(dv.take(j as int + 1) =~~= dv.take(j as int) + seq![dv[j as int]]);
            lemma_pairs_text_concat(dv.take(j as int), seq![dv[j as int]]);
            assert(seq![dv[j as int]].drop_first() =~~= Seq::<(Seq<char>, Seq<char>)>::empty());
            assert(pairs_text(Seq::<(Seq<char>, Seq<char>)>::empty()) =~= Seq::<char>::empty());
            assert(pairs_text(seq![dv[j as int]]) =~= dv[j as int].0 + seq!['\n']
                + dv[j as int].1 + seq!['\n']);
            assert(r@ =~= header + pairs_text(dv.take(j as int + 1)));
        }
        j = j + 1;
    }
    proof {
        assert(dv.take(pairs.len() as int) =~~= dv);
        assert(r@ =~= block_text(SpecRecord { path: path@, pairs: dv }, dropped as nat));
    }
    r
}


/// A join of pieces free of some character, with a different separator,
/// is itself free of that character.
proof fn lemma_join_no_char(items: Seq<Seq<char>>, sep: char, c: char)
    requires
        sep != c,
        forall|i: int, j: int|
            0 <= i < items.len() && 0 <= j < items[i].len() ==> #[trigger] items[i][j] != c,
    ensures
        forall|k: int| 0 <= k < join_seq(items, sep).len() ==> #[trigger] join_seq(items, sep)[k]
            != c,
    decreases items.len(),
{
    if items.len() == 0 {
    } else if items.len() == 1 {
        assert forall|k: int| 0 <= k < join_seq(items, sep).len() implies #[trigger] join_seq(
            items,
            sep,
        )[k] != c by {
            assert(join_seq(items, sep)[k] == items[0][k]);
        }
    } else {
        let rest = items.drop_first();
        assert(forall|i: int, j: int|
            0 <= i < rest.len() && 0 <= j < rest[i].len() ==> #[trigger] rest[i][j] != c);
        lemma_join_no_char(rest, sep, c);
        let joined = join_seq(items, sep);
        let h = items[0];
        assert(joined == h + seq![sep] + join_seq(rest, sep));
        assert forall|k: int| 0 <= k < joined.len() implies #[trigger] joined[k] != c by {
            if k < h.len() {
                assert(joined[k] == items[0][k]);
            } else if k == h.len() {
                assert(joined[k] == sep);
            } else {
                assert(joined[k] == join_seq(rest, sep)[k - h.len() - 1]);
            }
        }
    }
}

/// Parsing the budget tokens yields the budget numbers.
proof fn lemma_parse_budget_tokens(pairs: Seq<(Seq<char>, Seq<char>)>)
    requires
        forall|i: int|
            0 <= i < pairs.len() ==> field_lines((#[trigger] pairs[i]).0).len() <= usize::MAX
                as nat && field_lines(pairs[i].1).len() <= usize::MAX as nat,
    ensures
        parse_tokens(budget_tokens(pairs)) == budget_list(pairs),
    decreases pairs.len(),
{
    if pairs.len() == 0 {
    } else {
        let rest = pairs.drop_first();
        assert(forall|i: int|
            0 <= i < rest.len() ==> field_lines((#[trigger] rest[i]).0).len() <= usize::MAX
                as nat && field_lines(rest[i].1).len() <= usize::MAX as nat) by {
            assert(forall|i: int|
                0 <= i < rest.len() ==> rest[i] == #[trigger] pairs[i + 1]);
        }
        lemma_parse_budget_tokens(rest);
        let kb = field_lines(pairs.first().0).len();
        let vb = field_lines(pairs.first().1).len();
        assert(pairs[0] == pairs.first());
        crate::numbers::lemma_parse_format(kb);
        crate::numbers::lemma_parse_format(vb);
        let toks = budget_tokens(pairs);
        assert(toks == seq![dec_digits(kb), dec_digits(vb)] + budget_tokens(rest));
        assert(toks.first() == dec_digits(kb));
        assert(toks.drop_first() =~~= seq![dec_digits(vb)] + budget_tokens(rest));
        assert(toks.drop_first().first() == dec_digits(vb));
        assert(toks.drop_first().drop_first() =~~= budget_tokens(rest));
        assert(parse_tokens(toks.drop_first()) =~= seq![vb] + parse_tokens(
            toks.drop_first().drop_first(),
        ));
        assert(parse_tokens(toks) =~= seq![kb] + parse_tokens(toks.drop_first()));
        assert(parse_tokens(toks) =~= budget_list(pairs));
    }
}

/// Decoding the counts line of an encoded block recovers exactly the
/// declared budgets: the dropped count is parsed and taken off again.
proof fn lemma_counts_decode(pairs: Seq<(Seq<char>, Seq<char>)>, dropped: nat)
    requires
        dropped <= usize::MAX as nat,
        forall|i: int|
            0 <= i < pairs.len() ==> field_lines((#[trigger] pairs[i]).0).len() <= usize::MAX
                as nat && field_lines(pairs[i].1).len() <= usize::MAX as nat,
    ensures
        counts_of_line(counts_line(pairs, dropped)) == budget_list(pairs),
    decreases pairs.len(),
{
    let toks = budget_tokens(pairs) + seq![dec_digits(dropped)];
    assert forall|i: int, j: int|
        0 <= i < toks.len() && 0 <= j < toks[i].len() implies #[trigger] toks[i][j] != ' '
            && toks[i].len() >= 1 by {
        lemma_budget_tokens_digits(pairs);
        if i < budget_tokens(pairs).len() {
            assert(toks[i] == budget_tokens(pairs)[i]);
        } else {
            assert(toks[i] == dec_digits(dropped));
            crate::numbers::lemma_dec_digits_plain(dropped);
            crate::numbers::lemma_parse_format(dropped);
        }
    }
    assert forall|i: int| 0 <= i < toks.len() implies (#[trigger] toks[i]).len() >= 1 by {
        lemma_budget_tokens_digits(pairs);
        if i < budget_tokens(pairs).len() {
            assert(toks[i] == budget_tokens(pairs)[i]);
        } else {
            assert(toks[i] == dec_digits(dropped));
            crate::numbers::lemma_parse_format(dropped);
        }
    }
    crate::text::lemma_split_join(toks, ' ');
    lemma_parse_budget_tokens(pairs);
    lemma_parse_tokens_concat(budget_tokens(pairs), seq![dec_digits(dropped)]);
    crate::numbers::lemma_parse_format(dropped);
    assert(seq![dec_digits(dropped)].first() == dec_digits(dropped));
    assert(seq![dec_digits(dropped)].drop_first() =~~= Seq::<Seq<char>>::empty());
    assert(parse_tokens(Seq::<Seq<char>>::empty()) =~= Seq::<nat>::empty());
    assert(parse_tokens(seq![dec_digits(dropped)]) =~= seq![dropped]);
    assert(parse_tokens(toks) =~= budget_list(pairs) + seq![dropped]);
    assert((budget_list(pairs) + seq![dropped]).drop_last() =~= budget_list(pairs));
}

/// The budget tokens are nonempty digit strings: no spaces, no line
/// breaks.
proof fn lemma_budget_tokens_digits(pairs: Seq<(Seq<char>, Seq<char>)>)
    ensures
        forall|i: int| 0 <= i < budget_tokens(pairs).len() ==> (#[trigger] budget_tokens(
            pairs,
        )[i]).len() >= 1,
        forall|i: int, j: int|
            0 <= i < budget_tokens(pairs).len() && 0 <= j < budget_tokens(pairs)[i].len()
                ==> #[trigger] budget_tokens(pairs)[i][j] != ' ' && budget_tokens(pairs)[i][j]
                != '\n',
    decreases pairs.len(),
{
    if pairs.len() > 0 {
        lemma_budget_tokens_digits(pairs.drop_first());
        let kb = field_lines(pairs.first().0).len();
        let vb = field_lines(pairs.first().1).len();
        crate::numbers::lemma_dec_digits_plain(kb);
        crate::numbers::lemma_dec_digits_plain(vb);
        crate::numbers::lemma_dec_digits_shape(kb);
        crate::numbers::lemma_dec_digits_shape(vb);
        let toks = budget_tokens(pairs);
        let rest = budget_tokens(pairs.drop_first());
        assert forall|i: int| 0 <= i < toks.len() implies (#[trigger] toks[i]).len() >= 1 by {
            if i >= 2 {
                assert(toks[i] == rest[i - 2]);
            }
        }
        assert forall|i: int, j: int|
            0 <= i < toks.len() && 0 <= j < toks[i].len() implies #[trigger] toks[i][j] != ' '
                && toks[i][j] != '\n' by {
            if i >= 2 {
                assert(toks[i] == rest[i - 2]);
            }
        }
    }
}


/// A field as the decoder rebuilds it from its lines, one line at a
/// time.
spec fn accum_fold(acc: Seq<char>, lines: Seq<Seq<char>>) -> Seq<char>
    decreases lines.len(),
{
    if lines.len() == 0 {
        acc
    } else {
        accum_fold(accum(acc, lines.first()), lines.drop_first())
    }
}

/// A field the codec round-trips exactly: it does not begin with a
/// line break (the decoder would collapse leading empty lines), and
/// its line count fits the machine.
pub open spec fn field_ok(s: Seq<char>) -> bool {
    &&& s.len() == 0 || s[0] != '\n'
    &&& field_lines(s).len() <= usize::MAX as nat
}

/// A record the codec round-trips exactly: at least one pair, a path
/// on a single line, and every field round-trippable.
pub open spec fn record_ok(r: SpecRecord) -> bool {
    &&& r.pairs.len() >= 1
    &&& forall|i: int| 0 <= i < r.path.len() ==> #[trigger] r.path[i] != '\n'
    &&& forall|i: int|
        0 <= i < r.pairs.len() ==> field_ok((#[trigger] r.pairs[i]).0) && field_ok(r.pairs[i].1)
}

proof fn lemma_accum_fold_nonempty(acc: Seq<char>, lines: Seq<Seq<char>>)
    requires
        acc.len() > 0,
    ensures
        accum_fold(acc, lines) == if lines.len() == 0 {
            acc
        } else {
            acc + seq!['\n'] + join_seq(lines, '\n')
        },
    decreases lines.len(),
{
    if lines.len() == 0 {
    } else {
        let acc2 = accum(acc, lines.first());
        assert(acc2 == acc + seq!['\n'] + lines.first());
        lemma_accum_fold_nonempty(acc2, lines.drop_first());
        if lines.len() == 1 {
            assert(accum_fold(acc, lines) == acc2);
            assert(join_seq(lines, '\n') == lines[0]);
        } else {
            assert(accum_fold(acc, lines) == acc2 + seq!['\n'] + join_seq(
                lines.drop_first(),
                '\n',
            ));
            assert(join_seq(lines, '\n') == lines[0] + seq!['\n'] + join_seq(
                lines.drop_first(),
                '\n',
            ));
            assert(acc2 + seq!['\n'] + join_seq(lines.drop_first(), '\n') =~= acc + seq!['\n']
                + join_seq(lines, '\n'));
        }
    }
}

/// Rebuilding a round-trippable field from its lines restores it.
proof fn lemma_accum_field(s: Seq<char>)
    requires
        s.len() == 0 || s[0] != '\n',
    ensures
        accum_fold(Seq::<char>::empty(), field_lines(s)) == s,
{
    let lines = field_lines(s);
    crate::text::lemma_split_nonempty(s, '\n');
    crate::text::lemma_join_split(s, '\n');
    if s.len() == 0 {
        assert(lines =~~= seq![Seq::<char>::empty()]);
        assert(accum(Seq::<char>::empty(), lines.first()) =~= Seq::<char>::empty());
        assert(lines.drop_first() =~~= Seq::<Seq<char>>::empty());
        assert(accum_fold(Seq::<char>::empty(), lines) == accum_fold(
            accum(Seq::<char>::empty(), lines.first()),
            lines.drop_first(),
        ));
        assert(accum_fold(accum(Seq::<char>::empty(), lines.first()), lines.drop_first()) == accum(
            Seq::<char>::empty(),
            lines.first(),
        ));
        assert(accum_fold(Seq::<char>::empty(), lines) =~= s);
    } else {
        crate::text::lemma_split_nonempty(s.drop_first(), '\n');
        assert(lines[0] == seq![s[0]] + split_seq(s.drop_first(), '\n')[0]);
        assert(lines[0].len() > 0);
        assert(accum(Seq::<char>::empty(), lines.first()) == lines[0]);
        lemma_accum_fold_nonempty(lines[0], lines.drop_first());
        if lines.len() == 1 {
            assert(accum_fold(Seq::<char>::empty(), lines) == lines[0]);
            assert(join_seq(lines, '\n') == lines[0]);
        } else {
            assert(accum_fold(Seq::<char>::empty(), lines) == lines[0] + seq!['\n'] + join_seq(
                lines.drop_first(),
                '\n',
            ));
            assert(join_seq(lines, '\n') == lines[0] + seq!['\n'] + join_seq(
                lines.drop_first(),
                '\n',
            ));
        }
    }
}

/// The budgets of a block, by position: key and value line counts
/// alternating, two per pair.
proof fn lemma_budget_list_index(pairs: Seq<(Seq<char>, Seq<char>)>)
    ensures
        budget_list(pairs).len() == 2 * pairs.len(),
        forall|j: int|
            0 <= j < pairs.len() ==> budget_list(pairs)[2 * j] == field_lines(
                (#[trigger] pairs[j]).0,
            ).len() && budget_list(pairs)[2 * j + 1] == field_lines(pairs[j].1).len(),
    decreases pairs.len(),
{
    if pairs.len() > 0 {
        lemma_budget_list_index(pairs.drop_first());
        let bl = budget_list(pairs);
        let rest = budget_list(pairs.drop_first());
        assert forall|j: int|
            0 <= j < pairs.len() implies bl[2 * j] == field_lines((#[trigger] pairs[j]).0).len()
                && bl[2 * j + 1] == field_lines(pairs[j].1).len() by {
            if j == 0 {
                assert(bl[0] == field_lines(pairs.first().0).len());
                assert(bl[1] == field_lines(pairs.first().1).len());
            } else {
                assert(bl[2 * j] == rest[2 * (j - 1)]);
                assert(bl[2 * j + 1] == rest[2 * (j - 1) + 1]);
                assert(pairs.drop_first()[j - 1] == pairs[j]);
            }
        }
    }
}

/// Consuming one key field's lines moves the decoder to the matching
/// value field, the key rebuilt by accumulation.
proof fn lemma_key_field(st: DecState, lines: Seq<Seq<char>>, rest: Seq<Seq<char>>)
    requires
        st.mode is InKey,
        0 <= st.idx < st.budgets.len(),
        st.left == lines.len(),
        lines.len() >= 1,
    ensures
        dec_run(st, lines + rest) == dec_run(
            DecState {
                mode: DecMode::InValue,
                path: st.path,
                budgets: st.budgets,
                idx: st.idx + 1,
                left: next_left(st.budgets, st.idx + 1),
                key: accum_fold(st.key, lines),
                val: st.val,
                pairs: st.pairs,
            },
            rest,
        ),
    decreases lines.len(),
{
    let whole = lines + rest;
    assert(whole.len() >= 1);
    assert(whole.first() == lines.first());
    assert(whole.drop_first() =~~= lines.drop_first() + rest);
    let stepped = dec_step(st, whole.first());
    assert(stepped is Some);
    let st2 = (stepped->0).0;
    assert((stepped->0).1 is None);
    if lines.len() == 1 {
        assert(lines.drop_first() + rest =~~= rest);
        assert(accum_fold(st.key, lines) == accum_fold(accum(st.key, lines.first()),
            lines.drop_first()));
        assert(accum_fold(accum(st.key, lines.first()), lines.drop_first()) == accum(
            st.key,
            lines.first(),
        ));
        assert(st2 == DecState {
            mode: DecMode::InValue,
            path: st.path,
            budgets: st.budgets,
            idx: st.idx + 1,
            left: next_left(st.budgets, st.idx + 1),
            key: accum_fold(st.key, lines),
            val: st.val,
            pairs: st.pairs,
        });
        match dec_run(st2, whole.drop_first()) {
            Option::Some((st3, recs)) => {},
            Option::None => {},
        }
    } else {
        assert(st2 == DecState {
            mode: DecMode::InKey,
            path: st.path,
            budgets: st.budgets,
            idx: st.idx,
            left: (st.left - 1) as nat,
            key: accum(st.key, lines.first()),
            val: st.val,
            pairs: st.pairs,
        });
        lemma_key_field(st2, lines.drop_first(), rest);
        assert(accum_fold(st2.key, lines.drop_first()) == accum_fold(st.key, lines));
        match dec_run(st2, whole.drop_first()) {
            Option::Some((st3, recs)) => {},
            Option::None => {},
        }
    }
}

/// Consuming a value field's lines when more pairs follow moves the
/// decoder to the next key field, the finished pair appended.
proof fn lemma_value_field_more(st: DecState, lines: Seq<Seq<char>>, rest: Seq<Seq<char>>)
    requires
        st.mode is InValue,
        0 <= st.idx,
        st.idx + 1 < st.budgets.len(),
        st.left == lines.len(),
        lines.len() >= 1,
    ensures
        dec_run(st, lines + rest) == dec_run(
            DecState {
                mode: DecMode::InKey,
                path: st.path,
                budgets: st.budgets,
                idx: st.idx + 1,
                left: next_left(st.budgets, st.idx + 1),
                key: Seq::empty(),
                val: Seq::empty(),
                pairs: st.pairs.push((st.key, accum_fold(st.val, lines))),
            },
            rest,
        ),
    decreases lines.len(),
{
    let whole = lines + rest;
    assert(whole.first() == lines.first());
    assert(whole.drop_first() =~~= lines.drop_first() + rest);
    let stepped = dec_step(st, whole.first());
    assert(stepped is Some);
    let st2 = (stepped->0).0;
    assert((stepped->0).1 is None);
    if lines.len() == 1 {
        assert(lines.drop_first() + rest =~~= rest);
        assert(accum_fold(st.val, lines) == accum_fold(accum(st.val, lines.first()),
            lines.drop_first()));
        assert(accum_fold(accum(st.val, lines.first()), lines.drop_first()) == accum(
            st.val,
            lines.first(),
        ));
        match dec_run(st2, whole.drop_first()) {
            Option::Some((st3, recs)) => {},
            Option::None => {},
        }
    } else {
        lemma_value_field_more(st2, lines.drop_first(), rest);
        assert(accum_fold(st2.val, lines.drop_first()) == accum_fold(st.val, lines));
        match dec_run(st2, whole.drop_first()) {
            Option::Some((st3, recs)) => {},
            Option::None => {},
        }
    }
}

/// Consuming the last value field's lines completes the block: the
/// decoder emits the record and returns to expect a path.
proof fn lemma_value_field_last(st: DecState, lines: Seq<Seq<char>>, rest: Seq<Seq<char>>)
    requires
        st.mode is InValue,
        0 <= st.idx,
        st.idx + 1 >= st.budgets.len(),
        st.idx < st.budgets.len(),
        st.left == lines.len(),
        lines.len() >= 1,
    ensures
        dec_run(st, lines + rest) == run_with(
            seq![
                SpecRecord { path: st.path, pairs: st.pairs.push((st.key, accum_fold(st.val, lines))) },
            ],
            DecState {
                mode: DecMode::AtPath,
                path: st.path,
                budgets: st.budgets,
                idx: st.idx + 1,
                left: 0,
                key: Seq::empty(),
                val: Seq::empty(),
                pairs: Seq::empty(),
            },
            rest,
        ),
    decreases lines.len(),
{
    let whole = lines + rest;
    assert(whole.first() == lines.first());
    assert(whole.drop_first() =~~= lines.drop_first() + rest);
    let stepped = dec_step(st, whole.first());
    assert(stepped is Some);
    let st2 = (stepped->0).0;
    if lines.len() == 1 {
        assert(lines.drop_first() + rest =~~= rest);
        assert(accum_fold(st.val, lines) == accum_fold(accum(st.val, lines.first()),
            lines.drop_first()));
        assert(accum_fold(accum(st.val, lines.first()), lines.drop_first()) == accum(
            st.val,
            lines.first(),
        ));
        let rec = SpecRecord {
            path: st.path,
            pairs: st.pairs.push((st.key, accum(st.val, lines.first()))),
        };
        assert((stepped->0).1 == Option::Some(rec));
        match dec_run(st2, whole.drop_first()) {
            Option::Some((st3, recs)) => {},
            Option::None => {},
        }
    } else {
        assert((stepped->0).1 is None);
        lemma_value_field_last(st2, lines.drop_first(), rest);
        assert(accum_fold(st2.val, lines.drop_first()) == accum_fold(st.val, lines));
        match dec_run(st2, whole.drop_first()) {
            Option::Some((st3, recs)) => {},
            Option::None => {},
        }
    }
}

/// Consuming all remaining pairs of a block emits its record and
/// leaves the decoder expecting the next path.
proof fn lemma_pairs_walk(st: DecState, todo: Seq<(Seq<char>, Seq<char>)>, rest: Seq<Seq<char>>)
    requires
        st.mode is InKey,
        st.key == Seq::<char>::empty(),
        st.val == Seq::<char>::empty(),
        todo.len() >= 1,
        st.idx >= 0,
        st.idx + 2 * todo.len() == st.budgets.len(),
        st.left == next_left(st.budgets, st.idx),
        forall|j: int|
            0 <= j < todo.len() ==> st.budgets[st.idx + 2 * j] == field_lines(
                (#[trigger] todo[j]).0,
            ).len() && st.budgets[st.idx + 2 * j + 1] == field_lines(todo[j].1).len(),
        forall|j: int|
            0 <= j < todo.len() ==> ((#[trigger] todo[j]).0.len() == 0 || todo[j].0[0] != '\n')
                && (todo[j].1.len() == 0 || todo[j].1[0] != '\n'),
    ensures
        dec_run(st, pairs_lines(todo) + rest) == run_with(
            seq![SpecRecord { path: st.path, pairs: st.pairs + todo }],
            DecState {
                mode: DecMode::AtPath,
                path: st.path,
                budgets: st.budgets,
                idx: st.budgets.len() as int,
                left: 0,
                key: Seq::empty(),
                val: Seq::empty(),
                pairs: Seq::empty(),
            },
            rest,
        ),
    decreases todo.len(),
{
    let k = todo.first().0;
    let v = todo.first().1;
    let klines = field_lines(k);
    let vlines = field_lines(v);
    assert(todo[0] == todo.first());
    assert(st.budgets[st.idx] == klines.len());
    assert(st.budgets[st.idx + 1] == vlines.len());
    crate::text::lemma_split_nonempty(k, '\n');
    crate::text::lemma_split_nonempty(v, '\n');
    assert(st.left == klines.len());
    assert(pairs_lines(todo) == klines + vlines + pairs_lines(todo.drop_first()));
    let tail = vlines + (pairs_lines(todo.drop_first()) + rest);
    assert(pairs_lines(todo) + rest =~~= klines + tail);
    lemma_key_field(st, klines, tail);
    lemma_accum_field(k);
    lemma_accum_field(v);
    let st2 = DecState {
        mode: DecMode::InValue,
        path: st.path,
        budgets: st.budgets,
        idx: st.idx + 1,
        left: next_left(st.budgets, st.idx + 1),
        key: k,
        val: Seq::empty(),
        pairs: st.pairs,
    };
    assert(accum_fold(st.key, klines) == k);
    assert(dec_run(st, pairs_lines(todo) + rest) == dec_run(st2, tail));
    assert(st2.left == vlines.len());
    if todo.len() == 1 {
        assert(st2.idx + 1 >= st.budgets.len());
        assert(pairs_lines(todo.drop_first()) =~~= Seq::<Seq<char>>::empty());
        assert(pairs_lines(todo.drop_first()) + rest =~~= rest);
        lemma_value_field_last(st2, vlines, rest);
        assert(accum_fold(st2.val, vlines) == v);
        assert(st.pairs.push((k, v)) =~~= st.pairs + todo);
        assert(st2.idx + 1 == st.budgets.len() as int);
    } else {
        assert(st2.idx + 1 < st.budgets.len());
        lemma_value_field_more(st2, vlines, pairs_lines(todo.drop_first()) + rest);
        assert(accum_fold(st2.val, vlines) == v);
        let st3 = DecState {
            mode: DecMode::InKey,
            path: st.path,
            budgets: st.budgets,
            idx: st.idx + 2,
            left: next_left(st.budgets, st.idx + 2),
            key: Seq::empty(),
            val: Seq::empty(),
            pairs: st.pairs.push((k, v)),
        };
        assert(dec_run(st2, tail) == dec_run(st3, pairs_lines(todo.drop_first()) + rest));
        assert forall|j: int|
            0 <= j < todo.drop_first().len() implies st3.budgets[st3.idx + 2 * j] == field_lines(
                (#[trigger] todo.drop_first()[j]).0,
            ).len() && st3.budgets[st3.idx + 2 * j + 1] == field_lines(
                todo.drop_first()[j].1,
            ).len() by {
            assert(todo.drop_first()[j] == todo[j + 1]);
            assert(st.budgets[st.idx + 2 * (j + 1)] == field_lines(todo[j + 1].0).len());
            assert(st.budgets[st.idx + 2 * (j + 1) + 1] == field_lines(todo[j + 1].1).len());
            assert(st3.idx + 2 * j == st.idx + 2 * (j + 1));
        }
        assert forall|j: int|
            0 <= j < todo.drop_first().len() implies ((#[trigger] todo.drop_first()[j]).0.len()
                == 0 || todo.drop_first()[j].0[0] != '\n') && (todo.drop_first()[j].1.len() == 0
                || todo.drop_first()[j].1[0] != '\n') by {
            assert(todo.drop_first()[j] == todo[j + 1]);
        }
        lemma_pairs_walk(st3, todo.drop_first(), rest);
        assert(st3.pairs + todo.drop_first() =~~= st.pairs + todo);
    }
}

/// Consuming one whole encoded block from a path-expecting state emits
/// exactly its record and returns the decoder to a path-expecting
/// state with empty accumulators.
proof fn lemma_block_walk(st: DecState, r: SpecRecord, dropped: nat, rest: Seq<Seq<char>>)
    requires
        st.mode is AtPath,
        st.key == Seq::<char>::empty(),
        st.val == Seq::<char>::empty(),
        record_ok(r),
        dropped <= usize::MAX as nat,
    ensures
        dec_run(st, block_lines(r, dropped) + rest) == run_with(
            seq![r],
            DecState {
                mode: DecMode::AtPath,
                path: r.path,
                budgets: budget_list(r.pairs),
                idx: budget_list(r.pairs).len() as int,
                left: 0,
                key: Seq::empty(),
                val: Seq::empty(),
                pairs: Seq::empty(),
            },
            rest,
        ),
{
    let whole = block_lines(r, dropped) + rest;
    assert(whole.first() == r.path);
    let st1 = DecState {
        mode: DecMode::AtCounts,
        path: r.path,
        budgets: st.budgets,
        idx: st.idx,
        left: st.left,
        key: st.key,
        val: st.val,
        pairs: st.pairs,
    };
    assert(dec_step(st, whole.first()) == Option::Some((st1, Option::<SpecRecord>::None)));
    assert(whole.drop_first() =~~= seq![counts_line(r.pairs, dropped)] + (pairs_lines(r.pairs)
        + rest));
    let line2 = counts_line(r.pairs, dropped);
    assert(whole.drop_first().first() == line2);
    assert(forall|i: int|
        0 <= i < r.pairs.len() ==> field_lines((#[trigger] r.pairs[i]).0).len() <= usize::MAX
            as nat && field_lines(r.pairs[i].1).len() <= usize::MAX as nat);
    lemma_counts_decode(r.pairs, dropped);
    lemma_budget_list_index(r.pairs);
    let budgets = budget_list(r.pairs);
    let st2 = DecState {
        mode: DecMode::InKey,
        path: r.path,
        budgets: budgets,
        idx: 0,
        left: next_left(budgets, 0),
        key: st.key,
        val: st.val,
        pairs: Seq::empty(),
    };
    assert(dec_step(st1, line2) == Option::Some((st2, Option::<SpecRecord>::None)));
    assert(whole.drop_first().drop_first() =~~= pairs_lines(r.pairs) + rest);
    assert forall|j: int|
        0 <= j < r.pairs.len() implies st2.budgets[st2.idx + 2 * j] == field_lines(
            (#[trigger] r.pairs[j]).0,
        ).len() && st2.budgets[st2.idx + 2 * j + 1] == field_lines(r.pairs[j].1).len() by {
        assert(budgets[2 * j] == field_lines(r.pairs[j].0).len());
        assert(budgets[2 * j + 1] == field_lines(r.pairs[j].1).len());
    }
    assert forall|j: int|
        0 <= j < r.pairs.len() implies ((#[trigger] r.pairs[j]).0.len() == 0 || r.pairs[j].0[0]
            != '\n') && (r.pairs[j].1.len() == 0 || r.pairs[j].1[0] != '\n') by {
        assert(field_ok(r.pairs[j].0));
        assert(field_ok(r.pairs[j].1));
    }
    lemma_pairs_walk(st2, r.pairs, rest);
    assert(st2.pairs + r.pairs =~~= r.pairs);
    assert(SpecRecord { path: r.path, pairs: st2.pairs + r.pairs } == r);
    match dec_run(st2, pairs_lines(r.pairs) + rest) {
        Option::Some((s3, recs)) => {
            match dec_run(st1, whole.drop_first()) {
                Option::Some((s4, recs4)) => {},
                Option::None => {},
            }
        },
        Option::None => {},
    }
}

/// The concatenated text of many encoded blocks, each with no dropped
/// attributes, as a dump of user-namespace-only paths writes them.
pub open spec fn blocks_text(records: Seq<SpecRecord>) -> Seq<char>
    decreases records.len(),
{
    if records.len() == 0 {
        Seq::empty()
    } else {
        block_text(records.first(), 0) + blocks_text(records.drop_first())
    }
}

/// The lines of those blocks, in order.
spec fn blocks_lines(records: Seq<SpecRecord>) -> Seq<Seq<char>>
    decreases records.len(),
{
    if records.len() == 0 {
        Seq::empty()
    } else {
        block_lines(records.first(), 0) + blocks_lines(records.drop_first())
    }
}

proof fn lemma_pairs_text_split(pairs: Seq<(Seq<char>, Seq<char>)>, t: Seq<char>)
    ensures
        split_seq(pairs_text(pairs) + t, '\n') == pairs_lines(pairs) + split_seq(t, '\n'),
    decreases pairs.len(),
{
    if pairs.len() == 0 {
        assert(pairs_text(pairs) + t =~= t);
        assert(pairs_lines(pairs) + split_seq(t, '\n') =~~= split_seq(t, '\n'));
    } else {
        let k = pairs.first().0;
        let v = pairs.first().1;
        let rest_t = pairs_text(pairs.drop_first()) + t;
        lemma_pairs_text_split(pairs.drop_first(), t);
        assert(pairs_text(pairs) + t =~= k + seq!['\n'] + (v + seq!['\n'] + rest_t));
        crate::text::lemma_split_concat(k, v + seq!['\n'] + rest_t, '\n');
        crate::text::lemma_split_concat(v, rest_t, '\n');
        assert(split_seq(pairs_text(pairs) + t, '\n') =~~= pairs_lines(pairs) + split_seq(
            t,
            '\n',
        ));
    }
}

proof fn lemma_block_split(r: SpecRecord, dropped: nat, t: Seq<char>)
    requires
        record_ok(r),
    ensures
        split_seq(block_text(r, dropped) + t, '\n') == block_lines(r, dropped) + split_seq(
            t,
            '\n',
        ),
{
    let counts = counts_line(r.pairs, dropped);
    let toks = budget_tokens(r.pairs) + seq![dec_digits(dropped)];
    assert forall|i: int, j: int|
        0 <= i < toks.len() && 0 <= j < toks[i].len() implies #[trigger] toks[i][j] != '\n' by {
        lemma_budget_tokens_digits(r.pairs);
        if i < budget_tokens(r.pairs).len() {
            assert(toks[i] == budget_tokens(r.pairs)[i]);
        } else {
            assert(toks[i] == dec_digits(dropped));
            crate::numbers::lemma_dec_digits_plain(dropped);
        }
    }
    lemma_join_no_char(toks, ' ', '\n');
    let rest_t = pairs_text(r.pairs) + t;
    assert(block_text(r, dropped) + t =~= r.path + seq!['\n'] + (counts + seq!['\n'] + rest_t));
    crate::text::lemma_split_concat(r.path, counts + seq!['\n'] + rest_t, '\n');
    crate::text::lemma_split_concat(counts, rest_t, '\n');
    crate::text::lemma_split_no_sep(r.path, '\n');
    crate::text::lemma_split_no_sep(counts, '\n');
    lemma_pairs_text_split(r.pairs, t);
    assert(split_seq(block_text(r, dropped) + t, '\n') =~~= block_lines(r, dropped) + split_seq(
        t,
        '\n',
    ));
}

proof fn lemma_blocks_split(records: Seq<SpecRecord>)
    requires
        forall|i: int| 0 <= i < records.len() ==> record_ok(#[trigger] records[i]),
    ensures
        split_seq(blocks_text(records), '\n') == blocks_lines(records) + seq![
            Seq::<char>::empty(),
        ],
    decreases records.len(),
{
    if records.len() == 0 {
        assert(split_seq(blocks_text(records), '\n') =~~= seq![Seq::<char>::empty()]);
        assert(blocks_lines(records) + seq![Seq::<char>::empty()] =~~= seq![
            Seq::<char>::empty(),
        ]);
    } else {
        assert(forall|i: int|
            0 <= i < records.drop_first().len() ==> record_ok(
                #[trigger] records.drop_first()[i],
            )) by {
            assert(forall|i: int|
                0 <= i < records.drop_first().len() ==> records.drop_first()[i]
                    == #[trigger] records[i + 1]);
        }
        lemma_blocks_split(records.drop_first());
        assert(record_ok(records[0]));
        assert(records.first() == records[0]);
        lemma_block_split(records.first(), 0, blocks_text(records.drop_first()));
        assert(split_seq(blocks_text(records), '\n') =~~= blocks_lines(records) + seq![
            Seq::<char>::empty(),
        ]);
    }
}

/// The path-expecting state the decoder stands in after the blocks of
/// `records`, starting from `st`.
spec fn blocks_after(st: DecState, records: Seq<SpecRecord>) -> DecState
    decreases records.len(),
{
    if records.len() == 0 {
        st
    } else {
        blocks_after(
            DecState {
                mode: DecMode::AtPath,
                path: records.first().path,
                budgets: budget_list(records.first().pairs),
                idx: budget_list(records.first().pairs).len() as int,
                left: 0,
                key: Seq::empty(),
                val: Seq::empty(),
                pairs: Seq::empty(),
            },
            records.drop_first(),
        )
    }
}

proof fn lemma_blocks_after_shape(st: DecState, records: Seq<SpecRecord>)
    requires
        st.mode is AtPath,
        st.key == Seq::<char>::empty(),
        st.val == Seq::<char>::empty(),
    ensures
        blocks_after(st, records).mode is AtPath,
        blocks_after(st, records).key == Seq::<char>::empty(),
        blocks_after(st, records).val == Seq::<char>::empty(),
    decreases records.len(),
{
    if records.len() > 0 {
        lemma_blocks_after_shape(
            DecState {
                mode: DecMode::AtPath,
                path: records.first().path,
                budgets: budget_list(records.first().pairs),
                idx: budget_list(records.first().pairs).len() as int,
                left: 0,
                key: Seq::empty(),
                val: Seq::empty(),
                pairs: Seq::empty(),
            },
            records.drop_first(),
        );
    }
}

proof fn lemma_run_blocks(st: DecState, records: Seq<SpecRecord>, rest: Seq<Seq<char>>)
    requires
        st.mode is AtPath,
        st.key == Seq::<char>::empty(),
        st.val == Seq::<char>::empty(),
        forall|i: int| 0 <= i < records.len() ==> record_ok(#[trigger] records[i]),
    ensures
        dec_run(st, blocks_lines(records) + rest) == run_with(
            records,
            blocks_after(st, records),
            rest,
        ),
    decreases records.len(),
{
    if records.len() == 0 {
        assert(blocks_lines(records) + rest =~~= rest);
        match dec_run(st, rest) {
            Option::Some((s2, recs)) => {
                assert(records + recs =~= recs);
            },
            Option::None => {},
        }
    } else {
        let r0 = records.first();
        assert(record_ok(records[0]));
        let st1 = DecState {
            mode: DecMode::AtPath,
            path: r0.path,
            budgets: budget_list(r0.pairs),
            idx: budget_list(r0.pairs).len() as int,
            left: 0,
            key: Seq::empty(),
            val: Seq::empty(),
            pairs: Seq::empty(),
        };
        assert(forall|i: int|
            0 <= i < records.drop_first().len() ==> record_ok(
                #[trigger] records.drop_first()[i],
            )) by {
            assert(forall|i: int|
                0 <= i < records.drop_first().len() ==> records.drop_first()[i]
                    == #[trigger] records[i + 1]);
        }
        lemma_run_blocks(st1, records.drop_first(), rest);
        assert(blocks_lines(records) + rest =~~= block_lines(r0, 0) + (blocks_lines(
            records.drop_first(),
        ) + rest));
        lemma_block_walk(st, r0, 0, blocks_lines(records.drop_first()) + rest);
        match dec_run(st1, blocks_lines(records.drop_first()) + rest) {
            Option::Some((s2, recs)) => {
                assert(seq![r0] + (records.drop_first() + recs) =~= records + recs);
            },
            Option::None => {},
        }
    }
}

/// The round-trip law of the dump codec: decoding the concatenated
/// dump blocks of any sequence of round-trippable records (each with a
/// single-line path, at least one pair, and no field that begins with
/// a line break) yields exactly those records, in order. Restoring a
/// dump therefore replays, path by path, exactly the pairs the dump
/// recorded.
pub proof fn lemma_dump_restore_round_trip(records: Seq<SpecRecord>)
    requires
        forall|i: int| 0 <= i < records.len() ==> record_ok(#[trigger] records[i]),
    ensures
        spec_decode(blocks_text(records)) == Option::Some(records),
{
    lemma_blocks_split(records);
    lemma_run_blocks(dec_init(), records, seq![Seq::<char>::empty()]);
    lemma_blocks_after_shape(dec_init(), records);
    let stf = blocks_after(dec_init(), records);
    let last = seq![Seq::<char>::empty()];
    assert(last.drop_first() =~~= Seq::<Seq<char>>::empty());
    let stepped = dec_step(stf, last.first());
    assert(stepped is Some);
    assert((stepped->0).1 is None);
    let st2 = (stepped->0).0;
    assert(dec_run(st2, last.drop_first()) == Option::Some(
        (st2, Seq::<SpecRecord>::empty()),
    ));
    assert(dec_run(stf, last) == Option::Some((st2, Seq::<SpecRecord>::empty())));
    assert(records + Seq::<SpecRecord>::empty() =~= records);
    assert(run_with(records, stf, last) == Option::Some((st2, records)));
}

/// Encodes the attributes of the object at `path` into one dump block.
/// Nothing is emitted for an object with no attributes at all; a
/// failed listing is an error. User-namespace attributes are kept in
/// enumeration order; others are only counted as dropped; unreadable
/// ones are skipped. Whatever the backend handed back, a produced
/// block is the encoding of some pairs and dropped count for this
/// path.
pub fn dump_path(path: &str) -> (r: Result<Option<String>, ()>)
    ensures
        r matches Ok(Some(s)) ==> exists|pairs: Seq<(Seq<char>, Seq<char>)>, dropped: nat|
            s@ == block_text((SpecRecord { path: path@, pairs }), dropped),
{
    match crate::backend::backend_list(path) {
        Option::None => Err(()),
        Option::Some(keys) => {
            if keys.len() == 0 {
                return Ok(Option::None);
            }
            let mut pairs: Vec<(String, String)> = Vec::new();
            let mut dropped: usize = 0;
            let mut i: usize = 0;
            while i < keys.len()
                invariant
                    0 <= i <= keys.len(),
                    dropped <= i,
                decreases keys.len() - i,
            {
                match &keys[i] {
                    Option::Some(raw_key) => {
                        match get_raw(path, raw_key.as_str()) {
                            Option::Some(((name, kt), value)) => {
                                if kt == KeyType::User {
                                    pairs.push((name, value));
                                } else {
                                    dropped = dropped + 1;
                                }
                            },
                            Option::None => {},
                        }
                    },
                    Option::None => {},
                }
                i = i + 1;
            }
            let block = encode_block(path, &pairs, dropped);
            proof {
                assert(block@ == block_text(
                    (SpecRecord { path: path@, pairs: pairs.deep_view() }),
                    dropped as nat,
                ));
            }
            Ok(Option::Some(block))
        },
    }
}

/// The outcome of replaying one decoded block: the block's path,
/// whether the path filter let it be written, and the store's answer
/// for each pair in order.
pub struct RestoreEntry {
    pub path: String,
    pub applied: bool,
    pub results: Vec<(String, Result<Option<String>, StoreError>)>,
}

/// Whether the filter names this path.
#[verifier::loop_isolation(false)]
fn path_in(filter: &Vec<String>, path: &str) -> (b: bool)
    ensures
        b == filter.deep_view().contains(path@),
{
    let ghost fv = filter.deep_view();
    let mut i: usize = 0;
    while i < filter.len()
        invariant
            0 <= i <= filter.len(),
            forall|k: int| 0 <= k < i ==> fv[k] != path@,
        decreases filter.len() - i,
    {
        proof {
            assert(fv[i as int] == filter@[i as int]@);
        }
        if crate::text::str_eq(filter[i].as_str(), path) {
            return true;
        }
        i = i + 1;
    }
    proof {
        assert(fv.len() == filter@.len());
        assert(!fv.contains(path@));
    }
    false
}

/// Decodes a dump text and replays each block through the store.
/// Nothing at all is written where the text is malformed: the whole
/// restore aborts. Otherwise every block is parsed; one whose path the
/// non-empty filter does not name is skipped without writing (parsed
/// only to stay in step with the stream). Each written pair goes
/// through the guarded write: a protected key is only overwritten with
/// `force`, and a conflict can arise on no other key.
#[verifier::loop_isolation(false)]
pub fn restore(dump: &str, filter: &Vec<String>, force: bool) -> (r: Option<Vec<RestoreEntry>>)
    ensures
        r is Some <==> spec_decode(dump@) is Some,
        r matches Some(entries) ==> ({
            let recs = spec_decode(dump@)->0;
            &&& entries@.len() == recs.len()
            &&& forall|i: int|
                0 <= i < recs.len() ==> ({
                    &&& (#[trigger] entries@[i]).path@ == recs[i].path
                    &&& entries@[i].applied == (filter.deep_view().len() == 0
                        || filter.deep_view().contains(recs[i].path))
                    &&& (entries@[i].applied ==> entries@[i].results@.len()
                        == recs[i].pairs.len() && forall|j: int|
                        0 <= j < recs[i].pairs.len() ==> (#[trigger] entries@[i].results@[j]).0@
                            == recs[i].pairs[j].0 && (entries@[i].results@[j].1 == Err::<
                            Option<String>,
                            StoreError,
                        >(StoreError::ProtectedConflict) ==> recs[i].pairs[j].0
                            == protected_name() && !force))
                    &&& (!entries@[i].applied ==> entries@[i].results@.len() == 0)
                })
        }),
{
    let decoded = match decode(dump) {
        Option::Some(v) => v,
        Option::None => {
            return Option::None;
        },
    };
    let ghost recs = spec_decode(dump@)->0;
    proof {
        assert(decoded.deep_view() == recs);
    }
    let mut entries: Vec<RestoreEntry> = Vec::new();
    let mut i: usize = 0;
    while i < decoded.len()
        invariant
            0 <= i <= decoded.len(),
            entries@.len() == i,
            forall|i2: int|
                0 <= i2 < i ==> ({
                    &&& (#[trigger] entries@[i2]).path@ == recs[i2].path
                    &&& entries@[i2].applied == (filter.deep_view().len() == 0
                        || filter.deep_view().contains(recs[i2].path))
                    &&& (entries@[i2].applied ==> entries@[i2].results@.len()
                        == recs[i2].pairs.len() && forall|j: int|
                        0 <= j < recs[i2].pairs.len() ==> (#[trigger] entries@[i2].results@[j]).0@
                            == recs[i2].pairs[j].0 && (entries@[i2].results@[j].1 == Err::<
                            Option<String>,
                            StoreError,
                        >(StoreError::ProtectedConflict) ==> recs[i2].pairs[j].0
                            == protected_name() && !force))
                    &&& (!entries@[i2].applied ==> entries@[i2].results@.len() == 0)
                }),
        decreases decoded.len() - i,
    {
        proof {
            assert(decoded.deep_view()[i as int] == decoded@[i as int]@);
        }
        let applied = filter.len() == 0 || path_in(filter, decoded[i].path.as_str());
        proof {
            assert(filter.deep_view().len() == filter@.len());
        }
        let mut results: Vec<(String, Result<Option<String>, StoreError>)> = Vec::new();
        if applied {
            let mut j: usize = 0;
            while j < decoded[i].pairs.len()
                invariant
                    0 <= i < decoded.len(),
                    0 <= j <= decoded@[i as int].pairs.len(),
                    results@.len() == j,
                    forall|j2: int|
                        0 <= j2 < j ==> (#[trigger] results@[j2]).0@ == recs[i as int].pairs[j2].0
                            && (results@[j2].1 == Err::<Option<String>, StoreError>(
                            StoreError::ProtectedConflict,
                        ) ==> recs[i as int].pairs[j2].0 == protected_name() && !force),
                decreases decoded@[i as int].pairs.len() - j,
            {
                proof {
                    assert(recs[i as int].pairs[j as int] == (
                        decoded@[i as int].pairs@[j as int].0@,
                        decoded@[i as int].pairs@[j as int].1@,
                    ));
                }
                let guarded = crate::keys::is_protected(decoded[i].pairs[j].0.as_str()) && !force;
                let res = crate::store::set(
                    decoded[i].path.as_str(),
                    decoded[i].pairs[j].0.as_str(),
                    decoded[i].pairs[j].1.as_str(),
                    guarded,
                );
                results.push((decoded[i].pairs[j].0.clone(), res));
                j = j + 1;
            }
        }
        entries.push(
            RestoreEntry { path: decoded[i].path.clone(), applied: applied, results: results },
        );
        i = i + 1;
    }
    Option::Some(entries)
}
} // verus!
