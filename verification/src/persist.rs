//! Result persistence: the duration mapping as a YAML document.
//!
//! A result document is a sequence of one-entry mappings, one per case in
//! lexicographic order: the case name mapped to the list of its measured
//! durations, each written as decimal seconds.  Reading is the exact inverse
//! of writing: `lemma_results_round_trip` states the round-trip law.

use vstd::prelude::*;

use crate::name_map::{lemma_map_insert_fresh, map_insert, sorted_keys, NameMap};
use crate::num_text::{format_nanos, parse_nanos, spec_format_nanos, spec_parse_nanos};
use crate::statistics::{durations_ok, run_durations_ok, MAX_CASE_TRIALS, MAX_DURATION_NANOS};
use crate::yaml::{emit_yaml, load_yaml, yaml_docs_of, yaml_text_of, YamlData};

verus! {

/// Why a result file was rejected, or could not be written.
#[derive(Clone, Copy, Debug, PartialEq, Eq, Structural)]
pub enum PersistError {
    /// the text is not valid YAML
    InvalidYaml,
    /// the text holds no document at all
    NoDocument,
    /// the document does not have the shape of a result file
    Malformed,
    /// the emitter could not write the document out
    EmitFailed,
}

/// The document for one case's duration list: every duration written as
/// decimal seconds.
pub open spec fn is_times_doc(t: YamlData, times: Seq<u64>) -> bool {
    match t {
        YamlData::Array(els) => els@.len() == times.len() && forall|j: int|
            0 <= j < times.len() ==> ((#[trigger] els@[j]) matches YamlData::Real(s)
                && s@ == spec_format_nanos(times[j] as int)),
        _ => false,
    }
}

/// The document for one case: a one-entry mapping from its name to its
/// duration list.
pub open spec fn is_case_doc(c: YamlData, entry: (Seq<char>, Seq<u64>)) -> bool {
    match c {
        YamlData::Hash(pairs) => pairs@.len() == 1 && (pairs@[0].0 matches YamlData::Str(k)
            && k@ == entry.0) && is_times_doc(pairs@[0].1, entry.1),
        _ => false,
    }
}

/// The document for a whole duration mapping: one case document per entry,
/// in the mapping's order.
pub open spec fn is_results_doc(y: YamlData, m: Seq<(Seq<char>, Seq<u64>)>) -> bool {
    match y {
        YamlData::Array(cases) => cases@.len() == m.len() && forall|i: int|
            0 <= i < m.len() ==> is_case_doc(#[trigger] cases@[i], m[i]),
        _ => false,
    }
}

/// The duration list a YAML sequence denotes: each element a float scalar
/// holding decimal seconds within the machine bounds.
pub open spec fn spec_times(els: Seq<YamlData>) -> Option<Seq<u64>>
    decreases els.len(),
{
    if els.len() == 0 {
        Some(Seq::empty())
    } else {
        match spec_times(els.drop_last()) {
            None => None,
            Some(r) => match els.last() {
                YamlData::Real(s) => match spec_parse_nanos(s@) {
                    Some(v) => Some(r.push(v)),
                    None => None,
                },
                _ => None,
            },
        }
    }
}

/// The pairs of one case mapping folded into the accumulated duration map.
pub open spec fn spec_fold_pairs(
    pairs: Seq<(YamlData, YamlData)>,
    acc: Seq<(Seq<char>, Seq<u64>)>,
) -> Option<Seq<(Seq<char>, Seq<u64>)>>
    decreases pairs.len(),
{
    if pairs.len() == 0 {
        Some(acc)
    } else {
        match pairs[0] {
            (YamlData::Str(name), YamlData::Array(els)) => match spec_times(els@) {
                Some(times) => if times.len() <= MAX_CASE_TRIALS {
                    spec_fold_pairs(pairs.skip(1), map_insert(acc, name@, times))
                } else {
                    None
                },
                None => None,
            },
            _ => None,
        }
    }
}

/// The case documents folded, in order, into the accumulated duration map.
pub open spec fn spec_fold_cases(
    cases: Seq<YamlData>,
    acc: Seq<(Seq<char>, Seq<u64>)>,
) -> Option<Seq<(Seq<char>, Seq<u64>)>>
    decreases cases.len(),
{
    if cases.len() == 0 {
        Some(acc)
    } else {
        match cases[0] {
            YamlData::Hash(pairs) => match spec_fold_pairs(pairs@, acc) {
                Some(acc2) => spec_fold_cases(cases.skip(1), acc2),
                None => None,
            },
            _ => None,
        }
    }
}

/// The duration mapping a result document denotes, if it has the right
/// shape.
pub open spec fn spec_results_from_yaml(doc: YamlData) -> Option<Seq<(Seq<char>, Seq<u64>)>> {
    match doc {
        YamlData::Array(cases) => spec_fold_cases(cases@, Seq::empty()),
        _ => None,
    }
}

/// The duration mapping a piece of result text denotes: the interpretation
/// of the first parsed document, or the error that stops it — invalid YAML,
/// an empty document stream, or a document of the wrong shape.
pub open spec fn spec_read_results(text: Seq<char>) -> Result<
    Seq<(Seq<char>, Seq<u64>)>,
    PersistError,
> {
    match yaml_docs_of(text) {
        None => Err(PersistError::InvalidYaml),
        Some(docs) => if docs.len() == 0 {
            Err(PersistError::NoDocument)
        } else {
            match spec_results_from_yaml(docs[0]) {
                Some(m) => Ok(m),
                None => Err(PersistError::Malformed),
            }
        },
    }
}

/// An entry with bounded durations inserted into a bounded mapping keeps
/// every entry bounded.
proof fn lemma_insert_keeps_durations_ok(
    s: Seq<(Seq<char>, Seq<u64>)>,
    k: Seq<char>,
    v: Seq<u64>,
)
    requires
        run_durations_ok(s),
        durations_ok(v),
    ensures
        run_durations_ok(map_insert(s, k, v)),
    decreases s.len(),
{
    let r = map_insert(s, k, v);
    if s.len() == 0 {
        assert(r == seq![(k, v)]);
        assert(forall|i: int| 0 <= i < r.len() ==> r[i] == (k, v));
    } else if crate::strkey::lex_lt(k, s[0].0) {
        assert(r == seq![(k, v)] + s);
        assert(forall|i: int| 1 <= i < r.len() ==> r[i] == s[i - 1]);
        assert(r[0] == (k, v));
    } else if k == s[0].0 {
        assert(r == seq![(k, v)] + s.skip(1));
        assert(forall|i: int| 1 <= i < r.len() ==> r[i] == s[i]);
        assert(r[0] == (k, v));
    } else {
        assert(forall|j: int| 0 <= j < s.skip(1).len() ==> #[trigger] s.skip(1)[j] == s[j + 1]);
        lemma_insert_keeps_durations_ok(s.skip(1), k, v);
        let t = map_insert(s.skip(1), k, v);
        assert(r == seq![s[0]] + t);
        assert(forall|i: int| 1 <= i < r.len() ==> r[i] == t[i - 1]);
        assert(r[0] == s[0]);
    }
}

/// A sequence with an element that is no parsable duration denotes no
/// duration list.
proof fn lemma_times_bad(els: Seq<YamlData>, i: int)
    requires
        0 <= i < els.len(),
        match els[i] {
            YamlData::Real(s) => spec_parse_nanos(s@) is None,
            _ => true,
        },
    ensures
        spec_times(els) is None,
    decreases els.len(),
{
    if i < els.len() - 1 {
        assert(forall|j: int|
            0 <= j < els.drop_last().len() ==> #[trigger] els.drop_last()[j] == els[j]);
        lemma_times_bad(els.drop_last(), i);
    }
}

/// Build the result document for a duration mapping: one one-entry mapping
/// per case, in the mapping's lexicographic order, every duration written
/// as decimal seconds.
pub fn results_to_yaml(results: &NameMap<Vec<u64>>) -> (y: YamlData)
    requires
        results.wf(),
    ensures
        is_results_doc(y, results@),
        run_durations_ok(results@) ==> spec_results_from_yaml(y) == Some(results@),
{
    let n = results.len();
    let mut cases: Vec<YamlData> = Vec::new();
    let mut i: usize = 0;
    while i < n
        invariant
            results.wf(),
            n == results@.len(),
            i <= n,
            cases@.len() == i,
            forall|q: int| 0 <= q < i ==> is_case_doc(#[trigger] cases@[q], results@[q]),
        decreases n - i,
    {
        let times: &Vec<u64> = results.value_at(i);
        let tn = times.len();
        let mut els: Vec<YamlData> = Vec::new();
        let mut j: usize = 0;
        while j < tn
            invariant
                results.wf(),
                i < n,
                n == results@.len(),
                tn == times@.len(),
                times@ == results@[i as int].1,
                j <= tn,
                els@.len() == j,
                forall|q: int|
                    0 <= q < j ==> ((#[trigger] els@[q]) matches YamlData::Real(s) && s@
                        == spec_format_nanos(times@[q] as int)),
            decreases tn - j,
        {
            els.push(YamlData::Real(format_nanos(times[j])));
            j += 1;
        }
        let name: String = results.key_at(i).clone();
        let mut pairs: Vec<(YamlData, YamlData)> = Vec::new();
        pairs.push((YamlData::Str(name), YamlData::Array(els)));
        cases.push(YamlData::Hash(pairs));
        proof {
            assert(is_case_doc(cases@[i as int], results@[i as int]));
        }
        i += 1;
    }
    let y = YamlData::Array(cases);
    proof {
        if run_durations_ok(results@) {
            lemma_results_round_trip(y, results@);
        }
    }
    y
}

/// Read a result document back into the duration mapping it denotes.  The
/// document must be a sequence of mappings from case names to sequences of
/// decimal-second durations; a later entry of a name replaces an earlier
/// one, and each list must fit the machine bounds.
pub fn results_from_yaml(doc: &YamlData) -> (r: Result<NameMap<Vec<u64>>, PersistError>)
    ensures
        match r {
            Ok(m) => spec_results_from_yaml(*doc) == Some(m@) && m.wf() && run_durations_ok(
                m@,
            ),
            Err(e) => spec_results_from_yaml(*doc) is None && e == PersistError::Malformed,
        },
{
    let cases = match doc.as_vec() {
        Some(v) => v,
        None => {
            return Err(PersistError::Malformed);
        },
    };
    let mut result: NameMap<Vec<u64>> = NameMap::new();
    let n = cases.len();
    let mut i: usize = 0;
    proof {
        assert(cases@.skip(0) =~= cases@);
    }
    while i < n
        invariant
            n == cases@.len(),
            i <= n,
            result.wf(),
            run_durations_ok(result@),
            spec_results_from_yaml(*doc) == spec_fold_cases(cases@, Seq::empty()),
            spec_fold_cases(cases@, Seq::empty()) == spec_fold_cases(
                cases@.skip(i as int),
                result@,
            ),
        decreases n - i,
    {
        let case: &YamlData = &cases[i];
        proof {
            assert(cases@.skip(i as int)[0] == cases@[i as int]);
            assert(cases@.skip(i as int).skip(1) =~= cases@.skip(i as int + 1));
        }
        let pairs = match case.as_hash() {
            Some(p) => p,
            None => {
                return Err(PersistError::Malformed);
            },
        };
        let pn = pairs.len();
        let mut j: usize = 0;
        proof {
            assert(pairs@.skip(0) =~= pairs@);
        }
        while j < pn
            invariant
                n == cases@.len(),
                i < n,
                pn == pairs@.len(),
                j <= pn,
                result.wf(),
                run_durations_ok(result@),
                spec_results_from_yaml(*doc) == spec_fold_cases(cases@, Seq::empty()),
                spec_fold_cases(cases@, Seq::empty()) == (match spec_fold_pairs(
                    pairs@.skip(j as int),
                    result@,
                ) {
                    Some(acc2) => spec_fold_cases(cases@.skip(i as int + 1), acc2),
                    None => None::<Seq<(Seq<char>, Seq<u64>)>>,
                }),
            decreases pn - j,
        {
            proof {
                assert(pairs@.skip(j as int)[0] == pairs@[j as int]);
                assert(pairs@.skip(j as int).skip(1) =~= pairs@.skip(j as int + 1));
            }
            let key: &YamlData = &pairs[j].0;
            let name: &String = match key.as_str() {
                Some(s) => s,
                None => {
                    return Err(PersistError::Malformed);
                },
            };
            let val: &YamlData = &pairs[j].1;
            let els = match val.as_vec() {
                Some(v) => v,
                None => {
                    return Err(PersistError::Malformed);
                },
            };
            let en = els.len();
            let mut times: Vec<u64> = Vec::new();
            let mut k: usize = 0;
            while k < en
                invariant
                    n == cases@.len(),
                    i < n,
                    pn == pairs@.len(),
                    j < pn,
                    en == els@.len(),
                    k <= en,
                    result.wf(),
                    run_durations_ok(result@),
                    spec_results_from_yaml(*doc) == spec_fold_cases(cases@, Seq::empty()),
                    spec_fold_cases(cases@, Seq::empty()) == (match spec_fold_pairs(
                        pairs@.skip(j as int),
                        result@,
                    ) {
                        Some(acc2) => spec_fold_cases(cases@.skip(i as int + 1), acc2),
                        None => None::<Seq<(Seq<char>, Seq<u64>)>>,
                    }),
                    pairs@.skip(j as int)[0] == pairs@[j as int],
                    (pairs@[j as int].0 matches YamlData::Str(nm) && nm@ == name@),
                    (pairs@[j as int].1 matches YamlData::Array(a) && a@ == els@),
                    spec_times(els@.take(k as int)) == Some(times@),
                    forall|q: int|
                        0 <= q < times@.len() ==> #[trigger] times@[q] <= MAX_DURATION_NANOS,
                decreases en - k,
            {
                let el: &YamlData = &els[k];
                match el {
                    YamlData::Real(s) => {
                        match parse_nanos(s.as_str()) {
                            Some(v) => {
                                proof {
                                    crate::num_text::lemma_parse_nanos_bound(s@);
                                }
                                times.push(v);
                            },
                            None => {
                                proof {
                                    lemma_times_bad(els@, k as int);
                                }
                                return Err(PersistError::Malformed);
                            },
                        }
                    },
                    _ => {
                        proof {
                            lemma_times_bad(els@, k as int);
                        }
                        return Err(PersistError::Malformed);
                    },
                }
                proof {
                    assert(els@.take(k as int + 1).drop_last() =~= els@.take(k as int));
                    assert(els@.take(k as int + 1).last() == els@[k as int]);
                }
                k += 1;
            }
            proof {
                assert(els@.take(en as int) =~= els@);
            }
            if times.len() > 16777216 {
                proof {
                    assert(times@.len() > MAX_CASE_TRIALS);
                }
                return Err(PersistError::Malformed);
            }
            let ghost prev = result@;
            result.insert(name.clone(), times);
            proof {
                lemma_insert_keeps_durations_ok(prev, name@, times@);
            }
            j += 1;
        }
        proof {
            assert(pairs@.skip(pn as int) =~= Seq::<(YamlData, YamlData)>::empty());
            assert(spec_fold_pairs(Seq::empty(), result@) == Some(result@));
        }
        i += 1;
    }
    proof {
        assert(cases@.skip(n as int) =~= Seq::<YamlData>::empty());
        assert(spec_fold_cases(Seq::empty(), result@) == Some(result@));
    }
    Ok(result)
}

/// Write a duration mapping out as YAML text, via the emitter: the text the
/// emitter gives for a document that holds exactly the mapping, and that —
/// within the machine bounds — reads back as the mapping itself.
pub fn write_result_text(results: &NameMap<Vec<u64>>) -> (r: Result<String, PersistError>)
    requires
        results.wf(),
    ensures
        match r {
            Ok(s) => exists|doc: YamlData|
                {
                    &&& #[trigger] is_results_doc(doc, results@)
                    &&& yaml_text_of(doc) == Some(s@)
                    &&& run_durations_ok(results@) ==> spec_results_from_yaml(doc) == Some(
                        results@,
                    )
                },
            Err(e) => e == PersistError::EmitFailed && exists|doc: YamlData|
                {
                    &&& #[trigger] is_results_doc(doc, results@)
                    &&& yaml_text_of(doc) is None
                },
        },
{
    let doc = results_to_yaml(results);
    let ghost gdoc = doc;
    match emit_yaml(doc) {
        Some(s) => {
            proof {
                assert(is_results_doc(gdoc, results@) && yaml_text_of(gdoc) == Some(s@));
            }
            Ok(s)
        },
        None => {
            proof {
                assert(is_results_doc(gdoc, results@) && yaml_text_of(gdoc) is None);
            }
            Err(PersistError::EmitFailed)
        },
    }
}

/// Read result text back into the duration mapping it denotes: exactly
/// `spec_read_results` of the text, the interpretation of its first parsed
/// document.
pub fn read_results(text: &str) -> (r: Result<NameMap<Vec<u64>>, PersistError>)
    ensures
        match r {
            Ok(m) => spec_read_results(text@) == Ok::<_, PersistError>(m@) && m.wf()
                && run_durations_ok(m@),
            Err(e) => spec_read_results(text@) == Err::<Seq<(Seq<char>, Seq<u64>)>, _>(e),
        },
{
    let docs = match load_yaml(text) {
        Some(d) => d,
        None => {
            return Err(PersistError::InvalidYaml);
        },
    };
    if docs.len() == 0 {
        return Err(PersistError::NoDocument);
    }
    results_from_yaml(&docs[0])
}

/// A written duration list reads back as the list itself.
proof fn lemma_times_seq_round_trip(els: Seq<YamlData>, times: Seq<u64>)
    requires
        els.len() == times.len(),
        forall|j: int|
            0 <= j < times.len() ==> ((#[trigger] els[j]) matches YamlData::Real(s) && s@
                == spec_format_nanos(times[j] as int)),
        durations_ok(times),
    ensures
        spec_times(els) == Some(times),
    decreases els.len(),
{
    if els.len() > 0 {
        assert(forall|j: int|
            0 <= j < els.drop_last().len() ==> #[trigger] els.drop_last()[j] == els[j]);
        assert(forall|j: int|
            0 <= j < times.drop_last().len() ==> #[trigger] times.drop_last()[j] == times[j]);
        lemma_times_seq_round_trip(els.drop_last(), times.drop_last());
        let last = times.last();
        assert(last <= MAX_DURATION_NANOS);
        crate::num_text::lemma_nanos_round_trip(last);
        assert(els.last() matches YamlData::Real(s) && s@ == spec_format_nanos(last as int));
        assert(times.drop_last().push(last) =~= times);
    }
}

proof fn lemma_fold_cases_id(
    cases: Seq<YamlData>,
    m: Seq<(Seq<char>, Seq<u64>)>,
    i: int,
)
    requires
        cases.len() == m.len(),
        sorted_keys(m),
        run_durations_ok(m),
        0 <= i <= m.len(),
        forall|q: int| 0 <= q < m.len() ==> is_case_doc(#[trigger] cases[q], m[q]),
    ensures
        spec_fold_cases(cases.skip(i), m.take(i)) == Some(m),
    decreases m.len() - i,
{
    if i == m.len() {
        assert(cases.skip(i) =~= Seq::<YamlData>::empty());
        assert(m.take(i) =~= m);
        assert(spec_fold_cases(Seq::empty(), m) == Some(m));
    } else {
        assert(cases.skip(i)[0] == cases[i]);
        assert(is_case_doc(cases[i], m[i]));
        let pairs = cases[i]->Hash_0;
        let k = m[i].0;
        let v = m[i].1;
        assert(pairs@[0].0 matches YamlData::Str(s) && s@ == k);
        let els = pairs@[0].1->Array_0;
        assert(is_times_doc(pairs@[0].1, v));
        assert(durations_ok(v));
        lemma_times_seq_round_trip(els@, v);
        crate::name_map::lemma_sorted_subrange(m, 0, i);
        assert forall|j: int| 0 <= j < i implies crate::strkey::lex_lt(
            #[trigger] m.take(i)[j].0,
            k,
        ) by {
            assert(m.take(i)[j] == m[j]);
        }
        lemma_map_insert_fresh(m.take(i), k, v, i);
        assert(map_insert(m.take(i), k, v) =~= m.take(i) + seq![(k, v)]);
        assert(m.take(i) + seq![(k, v)] =~= m.take(i + 1));
        assert(pairs@.skip(1) =~= Seq::<(YamlData, YamlData)>::empty());
        assert(spec_fold_pairs(Seq::empty(), m.take(i + 1)) == Some(m.take(i + 1)));
        assert(spec_fold_pairs(pairs@, m.take(i)) == Some(m.take(i + 1)));
        lemma_fold_cases_id(cases, m, i + 1);
        assert(cases.skip(i).skip(1) =~= cases.skip(i + 1));
    }
}

/// The round-trip law: a duration mapping written out as a result document
/// and read back is reproduced exactly, case names and duration lists
/// alike.
pub proof fn lemma_results_round_trip(y: YamlData, m: Seq<(Seq<char>, Seq<u64>)>)
    requires
        is_results_doc(y, m),
        sorted_keys(m),
        run_durations_ok(m),
    ensures
        spec_results_from_yaml(y) == Some(m),
{
    let cases = y->Array_0;
    lemma_fold_cases_id(cases@, m, 0);
    assert(cases@.skip(0) =~= cases@);
    assert(m.take(0) =~= Seq::<(Seq<char>, Seq<u64>)>::empty());
}

} // verus!
