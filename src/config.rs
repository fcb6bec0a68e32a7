//! The configuration reader: one `key = value` declaration per line.
use crate::errors::ParsingError;
use crate::text::{
    decimal, decimal_str, lower_of, same_text, split_on, split_str, to_lower, trim, trim_str,
};
use vstd::prelude::*;

verus! {

/// The lower-cased, trimmed key and the trimmed value of a line, or `None`
/// where the line does not hold exactly one `=`.
pub open spec fn line_pair(line: Seq<char>) -> Option<(Seq<char>, Seq<char>)> {
    let parts = split_on(line, '=');
    if parts.len() == 2 {
        Some((lower_of(trim(parts[0])), trim(parts[1])))
    } else {
        None
    }
}

/// The index of the first line that does not hold exactly one `=`.
pub open spec fn first_bad(lines: Seq<Seq<char>>) -> Option<nat>
    decreases lines.len(),
{
    if lines.len() == 0 {
        None
    } else {
        match first_bad(lines.drop_last()) {
            Some(i) => Some(i),
            None => if line_pair(lines.last()) is None {
                Some((lines.len() - 1) as nat)
            } else {
                None
            },
        }
    }
}

/// The settings that well-formed lines declare; a later line overrides an
/// earlier one with the same key.
pub open spec fn settings_of(lines: Seq<Seq<char>>) -> Map<Seq<char>, Seq<char>>
    decreases lines.len(),
{
    if lines.len() == 0 {
        Map::empty()
    } else {
        let m = settings_of(lines.drop_last());
        match line_pair(lines.last()) {
            Some(kv) => m.insert(kv.0, kv.1),
            None => m,
        }
    }
}

/// The first required key, in the order given, that `m` lacks.
pub open spec fn first_missing(req: Seq<Seq<char>>, m: Map<Seq<char>, Seq<char>>) -> Option<
    Seq<char>,
>
    decreases req.len(),
{
    if req.len() == 0 {
        None
    } else {
        match first_missing(req.drop_last(), m) {
            Some(k) => Some(k),
            None => if !m.contains_key(req.last()) {
                Some(req.last())
            } else {
                None
            },
        }
    }
}

/// The default of an allowed key: the first one declared for it.
pub open spec fn default_of(avail: Seq<(Seq<char>, Seq<char>)>, k: Seq<char>) -> Option<Seq<char>>
    decreases avail.len(),
{
    if avail.len() == 0 {
        None
    } else {
        match default_of(avail.drop_last(), k) {
            Some(v) => Some(v),
            None => if avail.last().0 == k {
                Some(avail.last().1)
            } else {
                None
            },
        }
    }
}

/// The finished configuration: the declared settings whose keys are required
/// or allowed, and the default of every allowed key that was not declared.
pub open spec fn config_of(
    lines: Seq<Seq<char>>,
    req: Seq<Seq<char>>,
    avail: Seq<(Seq<char>, Seq<char>)>,
) -> Map<Seq<char>, Seq<char>> {
    let m = settings_of(lines);
    Map::new(
        |k: Seq<char>|
            (m.contains_key(k) && req.contains(k)) || default_of(avail, k) is Some,
        |k: Seq<char>|
            if m.contains_key(k) {
                m[k]
            } else {
                default_of(avail, k)->0
            },
    )
}

pub open spec fn syntax_message(n: nat, line: Seq<char>) -> Seq<char> {
    "Check config file syntax on line "@ + decimal(n) + ": '"@ + line + "'"@
}

pub open spec fn missing_message(k: Seq<char>) -> Seq<char> {
    "Config file must contain the key '"@ + k + "'"@
}

pub open spec fn pairs_view(v: Seq<(String, String)>) -> Seq<(Seq<char>, Seq<char>)> {
    v.map_values(|e: (String, String)| (e.0@, e.1@))
}

/// A list of pairs with distinct keys that holds exactly the entries of `m`.
pub open spec fn represents(es: Seq<(Seq<char>, Seq<char>)>, m: Map<Seq<char>, Seq<char>>) -> bool {
    &&& forall|i: int, j: int| 0 <= i < j < es.len() ==> es[i].0 != es[j].0
    &&& forall|i: int|
        0 <= i < es.len() ==> #[trigger] m.contains_key(es[i].0) && m[es[i].0] == es[i].1
    &&& forall|k: Seq<char>| #[trigger]
        m.contains_key(k) ==> exists|i: int| 0 <= i < es.len() && es[i].0 == k
}

/// The position of the pair whose key is `k`.
fn find_key(es: &Vec<(String, String)>, k: &str) -> (r: Option<usize>)
    ensures
        match r {
            Some(j) => j < es@.len() && es@[j as int].0@ == k@,
            None => forall|i: int| 0 <= i < es@.len() ==> es@[i].0@ != k@,
        },
{
    let mut i: usize = 0;
    while i < es.len()
        invariant
            i <= es@.len(),
            forall|j: int| 0 <= j < i ==> es@[j].0@ != k@,
        decreases es@.len() - i,
    {
        if same_text(es[i].0.as_str(), k) {
            return Some(i);
        }
        i = i + 1;
    }
    None
}

/// Sets the value of `k`, replacing the pair that held it, if any.
fn upsert(es: &mut Vec<(String, String)>, k: String, v: String, Ghost(m): Ghost<
    Map<Seq<char>, Seq<char>>,
>)
    requires
        represents(pairs_view(old(es)@), m),
    ensures
        represents(pairs_view(final(es)@), m.insert(k@, v@)),
{
    let ghost m2 = m.insert(k@, v@);
    match find_key(es, k.as_str()) {
        Some(j) => {
            let ghost before = pairs_view(es@);
            assert(before[j as int].0 == k@);
            es.remove(j);
            es.insert(j, (k, v));
            assert(pairs_view(es@) =~= before.update(j as int, (k@, v@)));
            assert forall|i: int| 0 <= i < pairs_view(es@).len() implies #[trigger] m2.contains_key(
                pairs_view(es@)[i].0,
            ) && m2[pairs_view(es@)[i].0] == pairs_view(es@)[i].1 by {
                assert(pairs_view(es@)[i] == if i == j {
                    (k@, v@)
                } else {
                    before[i]
                });
                if i != j {
                    assert(before[i].0 != before[j as int].0);
                    assert(m.contains_key(before[i].0));
                }
            }
            assert forall|key: Seq<char>| #[trigger] m2.contains_key(key) implies exists|i: int|
                0 <= i < pairs_view(es@).len() && pairs_view(es@)[i].0 == key by {
                if key != k@ {
                    let i = choose|i: int| 0 <= i < before.len() && before[i].0 == key;
                    assert(pairs_view(es@)[i].0 == key);
                } else {
                    assert(pairs_view(es@)[j as int].0 == key);
                }
            }
        },
        None => {
            let ghost before = pairs_view(es@);
            es.push((k, v));
            assert(pairs_view(es@) =~= before.push((k@, v@)));
            assert forall|i: int| 0 <= i < pairs_view(es@).len() implies #[trigger] m2.contains_key(
                pairs_view(es@)[i].0,
            ) && m2[pairs_view(es@)[i].0] == pairs_view(es@)[i].1 by {
                if i < before.len() {
                    assert(pairs_view(es@)[i] == before[i]);
                    assert(m.contains_key(before[i].0));
                }
            }
            assert forall|key: Seq<char>| #[trigger] m2.contains_key(key) implies exists|i: int|
                0 <= i < pairs_view(es@).len() && pairs_view(es@)[i].0 == key by {
                if key != k@ {
                    let i = choose|i: int| 0 <= i < before.len() && before[i].0 == key;
                    assert(pairs_view(es@)[i].0 == key);
                } else {
                    assert(pairs_view(es@)[before.len() as int].0 == key);
                }
            }
        },
    }
}

pub open spec fn lines_view(v: Seq<String>) -> Seq<Seq<char>> {
    v.map_values(|l: String| l@)
}

pub open spec fn keys_view(v: Seq<&str>) -> Seq<Seq<char>> {
    v.map_values(|k: &str| k@)
}

pub open spec fn defaults_view(v: Seq<(&str, &str)>) -> Seq<(Seq<char>, Seq<char>)> {
    v.map_values(|e: (&str, &str)| (e.0@, e.1@))
}

proof fn lemma_first_bad_extends(lines: Seq<Seq<char>>, n: int)
    requires
        0 <= n <= lines.len(),
        first_bad(lines.subrange(0, n)) is Some,
    ensures
        first_bad(lines) == first_bad(lines.subrange(0, n)),
    decreases lines.len() - n,
{
    if n < lines.len() {
        assert(lines.subrange(0, n + 1).drop_last() =~= lines.subrange(0, n));
        lemma_first_bad_extends(lines, n + 1);
    } else {
        assert(lines.subrange(0, n) =~= lines);
    }
}

proof fn lemma_first_missing_extends(req: Seq<Seq<char>>, m: Map<Seq<char>, Seq<char>>, n: int)
    requires
        0 <= n <= req.len(),
        first_missing(req.subrange(0, n), m) is Some,
    ensures
        first_missing(req, m) == first_missing(req.subrange(0, n), m),
    decreases req.len() - n,
{
    if n < req.len() {
        assert(req.subrange(0, n + 1).drop_last() =~= req.subrange(0, n));
        lemma_first_missing_extends(req, m, n + 1);
    } else {
        assert(req.subrange(0, n) =~= req);
    }
}

proof fn lemma_default_first(avail: Seq<(Seq<char>, Seq<char>)>, k: Seq<char>, j: int)
    requires
        0 <= j < avail.len(),
        avail[j].0 == k,
        forall|i: int| 0 <= i < j ==> avail[i].0 != k,
    ensures
        default_of(avail, k) == Some(avail[j].1),
    decreases avail.len(),
{
    if j < avail.len() - 1 {
        lemma_default_first(avail.drop_last(), k, j);
    } else {
        lemma_default_none(avail.drop_last(), k);
    }
}

proof fn lemma_default_none(avail: Seq<(Seq<char>, Seq<char>)>, k: Seq<char>)
    requires
        forall|i: int| 0 <= i < avail.len() ==> avail[i].0 != k,
    ensures
        default_of(avail, k) is None,
    decreases avail.len(),
{
    if avail.len() > 0 {
        lemma_default_none(avail.drop_last(), k);
    }
}

/// Whether `k` is one of `ks`.
fn has_key(ks: &Vec<&str>, k: &str) -> (r: bool)
    ensures
        r == keys_view(ks@).contains(k@),
{
    let mut i: usize = 0;
    while i < ks.len()
        invariant
            i <= ks@.len(),
            forall|j: int| 0 <= j < i ==> ks@[j]@ != k@,
        decreases ks@.len() - i,
    {
        if same_text(ks[i], k) {
            assert(keys_view(ks@)[i as int] == k@);
            return true;
        }
        i = i + 1;
    }
    assert(!keys_view(ks@).contains(k@)) by {
        if keys_view(ks@).contains(k@) {
            let j = choose|j: int| 0 <= j < keys_view(ks@).len() && keys_view(ks@)[j] == k@;
            assert(ks@[j]@ == k@);
        }
    }
    false
}

/// The position of the first allowed key equal to `k`.
fn find_default(avail: &Vec<(&str, &str)>, k: &str) -> (r: Option<usize>)
    ensures
        match r {
            Some(j) => j < avail@.len() && default_of(defaults_view(avail@), k@) == Some(
                avail@[j as int].1@,
            ),
            None => default_of(defaults_view(avail@), k@) is None,
        },
{
    let ghost a = defaults_view(avail@);
    let mut i: usize = 0;
    while i < avail.len()
        invariant
            a == defaults_view(avail@),
            i <= avail@.len(),
            forall|j: int| 0 <= j < i ==> a[j].0 != k@,
        decreases avail@.len() - i,
    {
        if same_text(avail[i].0, k) {
            proof {
                lemma_default_first(a, k@, i as int);
            }
            return Some(i);
        }
        i = i + 1;
    }
    proof {
        lemma_default_none(a, k@);
    }
    None
}

/// Reads configuration lines into a list of distinct keys and their values.
///
/// Each line must hold exactly one `=`; its key is trimmed and lower-cased,
/// its value trimmed, and a later line overrides an earlier one. Every key of
/// `required_keys` must then be present. Keys that are neither required nor
/// among `available_keys` are dropped, and every allowed key that was not
/// declared takes its default. Keys of both lists are compared as given, so
/// they are expected in lower case.
pub fn read_parse_config_file(
    lines: &Vec<String>,
    required_keys: &Vec<&str>,
    available_keys: &Vec<(&str, &str)>,
) -> (r: Result<Vec<(String, String)>, ParsingError>)
    ensures
        match first_bad(lines_view(lines@)) {
            Some(i) => r matches Err(ParsingError::File(msg)) && msg@ == syntax_message(
                i + 1,
                lines@[i as int]@,
            ),
            None => match first_missing(keys_view(required_keys@), settings_of(lines_view(lines@))) {
                Some(k) => r matches Err(ParsingError::File(msg)) && msg@ == missing_message(k),
                None => r matches Ok(v) && represents(
                    pairs_view(v@),
                    config_of(
                        lines_view(lines@),
                        keys_view(required_keys@),
                        defaults_view(available_keys@),
                    ),
                ),
            },
        },
{
    let ghost ls = lines_view(lines@);
    let ghost req = keys_view(required_keys@);
    let ghost avail = defaults_view(available_keys@);
    let mut es: Vec<(String, String)> = Vec::new();
    let mut i: usize = 0;
    assert(pairs_view(es@) =~= Seq::empty());
    assert(ls.subrange(0, 0) =~= Seq::empty());
    while i < lines.len()
        invariant
            ls == lines_view(lines@),
            i <= lines@.len(),
            first_bad(ls.subrange(0, i as int)) is None,
            represents(pairs_view(es@), settings_of(ls.subrange(0, i as int))),
        decreases lines@.len() - i,
    {
        let ghost pre = ls.subrange(0, i + 1);
        assert(pre.drop_last() =~= ls.subrange(0, i as int));
        assert(pre.last() == lines@[i as int]@);
        let line = lines[i].as_str();
        let parts = split_str(line, '=');
        if parts.len() != 2 {
            let mut msg = String::from_str("Check config file syntax on line ");
            let num = decimal_str(i + 1);
            msg.append(num.as_str());
            msg.append(": '");
            msg.append(line);
            msg.append("'");
            proof {
                lemma_first_bad_extends(ls, i + 1);
            }
            return Err(ParsingError::File(msg));
        }
        assert(parts@.map_values(|w: &str| w@)[0] == parts@[0]@);
        assert(parts@.map_values(|w: &str| w@)[1] == parts@[1]@);
        let key = to_lower(trim_str(parts[0]));
        let value = String::from_str(trim_str(parts[1]));
        upsert(&mut es, key, value, Ghost(settings_of(ls.subrange(0, i as int))));
        i = i + 1;
    }
    assert(ls.subrange(0, lines@.len() as int) =~= ls);
    let ghost m = settings_of(ls);
    let mut j: usize = 0;
    assert(req.subrange(0, 0) =~= Seq::empty());
    while j < required_keys.len()
        invariant
            ls == lines_view(lines@),
            m == settings_of(ls),
            first_bad(ls) is None,
            req == keys_view(required_keys@),
            j <= required_keys@.len(),
            represents(pairs_view(es@), m),
            first_missing(req.subrange(0, j as int), m) is None,
        decreases required_keys@.len() - j,
    {
        let k = required_keys[j];
        let ghost pre = req.subrange(0, j + 1);
        assert(pre.drop_last() =~= req.subrange(0, j as int));
        assert(pre.last() == k@);
        let found = find_key(&es, k);
        if let Some(p) = found {
            assert(pairs_view(es@)[p as int].0 == k@);
            assert(m.contains_key(k@));
        } else {
            assert(!m.contains_key(k@)) by {
                if m.contains_key(k@) {
                    let t = choose|t: int|
                        0 <= t < pairs_view(es@).len() && pairs_view(es@)[t].0 == k@;
                    assert(pairs_view(es@)[t].0 == es@[t].0@);
                }
            }
            let mut msg = String::from_str("Config file must contain the key '");
            msg.append(k);
            msg.append("'");
            assert(first_missing(pre, m) == Some(k@));
            proof {
                lemma_first_missing_extends(req, m, j + 1);
            }
            return Err(ParsingError::File(msg));
        }
        j = j + 1;
    }
    assert(req.subrange(0, required_keys@.len() as int) =~= req);
    let ghost kept_map = Map::new(
        |k: Seq<char>| m.contains_key(k) && (req.contains(k) || default_of(avail, k) is Some),
        |k: Seq<char>| m[k],
    );
    let mut kept: Vec<(String, String)> = Vec::new();
    let mut t: usize = 0;
    assert(pairs_view(kept@) =~= Seq::empty());
    while t < es.len()
        invariant
            ls == lines_view(lines@),
            m == settings_of(ls),
            first_bad(ls) is None,
            first_missing(req, m) is None,
            req == keys_view(required_keys@),
            avail == defaults_view(available_keys@),
            t <= es@.len(),
            represents(pairs_view(es@), m),
            kept_map == Map::new(
                |k: Seq<char>| m.contains_key(k) && (req.contains(k) || default_of(avail, k) is Some),
                |k: Seq<char>| m[k],
            ),
            represents(
                pairs_view(kept@),
                Map::new(
                    |k: Seq<char>|
                        kept_map.contains_key(k) && exists|u: int|
                            0 <= u < t && pairs_view(es@)[u].0 == k,
                    |k: Seq<char>| m[k],
                ),
            ),
        decreases es@.len() - t,
    {
        let ghost pv = pairs_view(es@);
        let ghost before = pairs_view(kept@);
        assert(pv[t as int] == (es@[t as int].0@, es@[t as int].1@));
        let key = es[t].0.as_str();
        let keep = has_key(required_keys, key) || find_default(available_keys, key).is_some();
        let ghost old_map = Map::new(
            |k: Seq<char>|
                kept_map.contains_key(k) && exists|u: int| 0 <= u < t && pv[u].0 == k,
            |k: Seq<char>| m[k],
        );
        let ghost new_map = Map::new(
            |k: Seq<char>|
                kept_map.contains_key(k) && exists|u: int| 0 <= u < t + 1 && pv[u].0 == k,
            |k: Seq<char>| m[k],
        );
        assert(m.contains_key(pv[t as int].0));
        if keep {
            kept.push((es[t].0.clone(), es[t].1.clone()));
            assert(new_map =~= old_map.insert(pv[t as int].0, pv[t as int].1)) by {
                assert(new_map.contains_key(pv[t as int].0));
                assert forall|k: Seq<char>| #[trigger]
                    new_map.contains_key(k) implies old_map.contains_key(k) || k == pv[
                    t as int].0 by {
                    let u = choose|u: int| 0 <= u < t + 1 && pv[u].0 == k;
                    if u < t {
                        assert(old_map.contains_key(k));
                    }
                }
            }
            assert(pairs_view(kept@) =~= before.push(pv[t as int]));
            assert(!old_map.contains_key(pv[t as int].0)) by {
                if old_map.contains_key(pv[t as int].0) {
                    let u = choose|u: int| 0 <= u < t && pv[u].0 == pv[t as int].0;
                    assert(pv[u].0 != pv[t as int].0);
                }
            }
            assert forall|a: int, b: int|
                0 <= a < b < pairs_view(kept@).len() implies pairs_view(kept@)[a].0 != pairs_view(
                kept@,
            )[b].0 by {
                if b == before.len() {
                    assert(old_map.contains_key(before[a].0));
                }
            }
            assert forall|a: int| 0 <= a < pairs_view(kept@).len() implies #[trigger] new_map.contains_key(
                pairs_view(kept@)[a].0,
            ) && new_map[pairs_view(kept@)[a].0] == pairs_view(kept@)[a].1 by {
                if a < before.len() {
                    assert(old_map.contains_key(before[a].0));
                }
            }
            assert forall|k: Seq<char>| #[trigger] new_map.contains_key(k) implies exists|a: int|
                0 <= a < pairs_view(kept@).len() && pairs_view(kept@)[a].0 == k by {
                if k == pv[t as int].0 {
                    assert(pairs_view(kept@)[before.len() as int].0 == k);
                } else {
                    assert(old_map.contains_key(k));
                    let a = choose|a: int| 0 <= a < before.len() && before[a].0 == k;
                    assert(pairs_view(kept@)[a].0 == k);
                }
            }
        } else {
            assert(!kept_map.contains_key(pv[t as int].0));
            assert(new_map =~= old_map) by {
                assert forall|k: Seq<char>| #[trigger]
                    new_map.contains_key(k) implies old_map.contains_key(k) by {
                    let u = choose|u: int| 0 <= u < t + 1 && pv[u].0 == k;
                    if u == t {
                        assert(false);
                    }
                }
            }
        }
        t = t + 1;
    }
    assert(Map::new(
        |k: Seq<char>|
            kept_map.contains_key(k) && exists|u: int|
                0 <= u < es@.len() && pairs_view(es@)[u].0 == k,
        |k: Seq<char>| m[k],
    ) =~= kept_map);
    let mut d: usize = 0;
    assert(avail.subrange(0, 0) =~= Seq::empty());
    while d < available_keys.len()
        invariant
            ls == lines_view(lines@),
            m == settings_of(ls),
            first_bad(ls) is None,
            first_missing(req, m) is None,
            req == keys_view(required_keys@),
            kept_map == Map::new(
                |k: Seq<char>| m.contains_key(k) && (req.contains(k) || default_of(avail, k) is Some),
                |k: Seq<char>| m[k],
            ),
            avail == defaults_view(available_keys@),
            d <= available_keys@.len(),
            represents(
                pairs_view(kept@),
                Map::new(
                    |k: Seq<char>|
                        kept_map.contains_key(k) || default_of(avail.subrange(0, d as int), k) is Some,
                    |k: Seq<char>|
                        if kept_map.contains_key(k) {
                            m[k]
                        } else {
                            default_of(avail.subrange(0, d as int), k)->0
                        },
                ),
            ),
        decreases available_keys@.len() - d,
    {
        let ghost pre = avail.subrange(0, d + 1);
        assert(pre.drop_last() =~= avail.subrange(0, d as int));
        let ghost before = pairs_view(kept@);
        let ghost old_map = Map::new(
            |k: Seq<char>|
                kept_map.contains_key(k) || default_of(avail.subrange(0, d as int), k) is Some,
            |k: Seq<char>|
                if kept_map.contains_key(k) {
                    m[k]
                } else {
                    default_of(avail.subrange(0, d as int), k)->0
                },
        );
        let ghost new_map = Map::new(
            |k: Seq<char>| kept_map.contains_key(k) || default_of(pre, k) is Some,
            |k: Seq<char>|
                if kept_map.contains_key(k) {
                    m[k]
                } else {
                    default_of(pre, k)->0
                },
        );
        let (k, v) = available_keys[d];
        assert(pre.last() == (k@, v@));
        match find_key(&kept, k) {
            Some(p) => {
                assert(pairs_view(kept@)[p as int].0 == k@);
                assert(old_map.contains_key(k@));
                assert(new_map =~= old_map);
            },
            None => {
                assert(!old_map.contains_key(k@)) by {
                    if old_map.contains_key(k@) {
                        let a = choose|a: int| 0 <= a < before.len() && before[a].0 == k@;
                        assert(before[a].0 == kept@[a].0@);
                    }
                }
                kept.push((String::from_str(k), String::from_str(v)));
                assert(new_map =~= old_map.insert(k@, v@));
                assert(pairs_view(kept@) =~= before.push((k@, v@)));
                assert forall|a: int, b: int|
                    0 <= a < b < pairs_view(kept@).len() implies pairs_view(kept@)[a].0
                    != pairs_view(kept@)[b].0 by {
                    if b == before.len() {
                        assert(old_map.contains_key(before[a].0));
                    }
                }
                assert forall|a: int|
                    0 <= a < pairs_view(kept@).len() implies #[trigger] new_map.contains_key(
                    pairs_view(kept@)[a].0,
                ) && new_map[pairs_view(kept@)[a].0] == pairs_view(kept@)[a].1 by {
                    if a < before.len() {
                        assert(old_map.contains_key(before[a].0));
                    }
                }
                assert forall|key: Seq<char>| #[trigger] new_map.contains_key(key) implies exists|
                    a: int,
                | 0 <= a < pairs_view(kept@).len() && pairs_view(kept@)[a].0 == key by {
                    if key == k@ {
                        assert(pairs_view(kept@)[before.len() as int].0 == key);
                    } else {
                        assert(old_map.contains_key(key));
                        let a = choose|a: int| 0 <= a < before.len() && before[a].0 == key;
                        assert(pairs_view(kept@)[a].0 == key);
                    }
                }
            },
        }
        d = d + 1;
    }
    assert(avail.subrange(0, available_keys@.len() as int) =~= avail);
    assert(Map::new(
        |k: Seq<char>| kept_map.contains_key(k) || default_of(avail, k) is Some,
        |k: Seq<char>|
            if kept_map.contains_key(k) {
                m[k]
            } else {
                default_of(avail, k)->0
            },
    ) =~= config_of(ls, req, avail));
    Ok(kept)
}

/// How many times `c` occurs in `s`.
pub open spec fn count_char(s: Seq<char>, c: char) -> nat
    decreases s.len(),
{
    if s.len() == 0 {
        0
    } else {
        count_char(s.drop_last(), c) + if s.last() == c {
            1nat
        } else {
            0nat
        }
    }
}

proof fn lemma_split_count(s: Seq<char>, c: char)
    ensures
        split_on(s, c).len() == count_char(s, c) + 1,
    decreases s.len(),
{
    if s.len() > 0 {
        lemma_split_count(s.drop_last(), c);
    }
}

proof fn lemma_no_missing(req: Seq<Seq<char>>, m: Map<Seq<char>, Seq<char>>)
    ensures
        first_missing(req, m) is None <==> forall|k: Seq<char>|
            req.contains(k) ==> #[trigger] m.contains_key(k),
    decreases req.len(),
{
    if req.len() > 0 {
        lemma_no_missing(req.drop_last(), m);
        if first_missing(req, m) is None {
            assert forall|k: Seq<char>| req.contains(k) implies #[trigger] m.contains_key(k) by {
                let i = choose|i: int| 0 <= i < req.len() && req[i] == k;
                if i < req.len() - 1 {
                    assert(req.drop_last()[i] == k);
                    assert(req.drop_last().contains(k));
                }
            }
        } else {
            assert(req.contains(req.last()));
            if first_missing(req.drop_last(), m) is Some {
                let k = choose|k: Seq<char>|
                    req.drop_last().contains(k) && !#[trigger] m.contains_key(k);
                let i = choose|i: int| 0 <= i < req.len() - 1 && req.drop_last()[i] == k;
                assert(req[i] == k);
            }
        }
    }
}

proof fn lemma_first_bad_finds(lines: Seq<Seq<char>>, i: int)
    requires
        0 <= i < lines.len(),
        line_pair(lines[i]) is None,
    ensures
        first_bad(lines) matches Some(j) && j <= i && line_pair(lines[j as int]) is None,
    decreases lines.len(),
{
    if i < lines.len() - 1 {
        lemma_first_bad_finds(lines.drop_last(), i);
    } else if first_bad(lines.drop_last()) is Some {
        lemma_first_bad_finds_any(lines.drop_last());
    }
}

proof fn lemma_first_bad_finds_any(lines: Seq<Seq<char>>)
    requires
        first_bad(lines) is Some,
    ensures
        first_bad(lines) matches Some(j) && j < lines.len() && line_pair(lines[j as int]) is None,
    decreases lines.len(),
{
    if lines.len() > 0 && first_bad(lines.drop_last()) is Some {
        lemma_first_bad_finds_any(lines.drop_last());
    }
}

/// A line that does not hold exactly one `=` fails the whole read: the read
/// reports the first such line, which is this one or an earlier one.
pub proof fn lemma_bad_line_fails(lines: Seq<Seq<char>>, i: int)
    requires
        0 <= i < lines.len(),
        count_char(lines[i], '=') != 1,
    ensures
        first_bad(lines) matches Some(j) && j <= i && count_char(lines[j as int], '=') != 1,
{
    lemma_split_count(lines[i], '=');
    lemma_first_bad_finds(lines, i);
    let j = first_bad(lines)->0;
    lemma_split_count(lines[j as int], '=');
}

/// A read whose lines are well formed fails when a required key is declared by
/// no line, and it names the first such key.
pub proof fn lemma_missing_key_fails(lines: Seq<Seq<char>>, req: Seq<Seq<char>>, k: Seq<char>)
    requires
        req.contains(k),
        !settings_of(lines).contains_key(k),
    ensures
        first_missing(req, settings_of(lines)) matches Some(f) && req.contains(f)
            && !settings_of(lines).contains_key(f),
{
    lemma_no_missing(req, settings_of(lines));
    lemma_first_missing_finds(req, settings_of(lines));
}

proof fn lemma_first_missing_finds(req: Seq<Seq<char>>, m: Map<Seq<char>, Seq<char>>)
    ensures
        first_missing(req, m) matches Some(f) ==> req.contains(f) && !m.contains_key(f),
    decreases req.len(),
{
    if req.len() > 0 {
        lemma_first_missing_finds(req.drop_last(), m);
        if first_missing(req.drop_last(), m) is Some {
            let f = first_missing(req.drop_last(), m)->0;
            let i = choose|i: int| 0 <= i < req.len() - 1 && req.drop_last()[i] == f;
            assert(req[i] == f);
        } else {
            assert(req[req.len() - 1] == req.last());
        }
    }
}

/// In a successful read every required key keeps the value of its last
/// declaration, and every allowed key that no line declares takes its default.
pub proof fn lemma_required_kept_defaults_filled(
    lines: Seq<Seq<char>>,
    req: Seq<Seq<char>>,
    avail: Seq<(Seq<char>, Seq<char>)>,
)
    requires
        first_bad(lines) is None,
        first_missing(req, settings_of(lines)) is None,
    ensures
        forall|k: Seq<char>|
            req.contains(k) ==> config_of(lines, req, avail).contains_key(k) && #[trigger] config_of(
                lines,
                req,
                avail,
            )[k] == settings_of(lines)[k] && settings_of(lines).contains_key(k),
        forall|k: Seq<char>|
            default_of(avail, k) is Some && !settings_of(lines).contains_key(k) ==> #[trigger] config_of(
                lines,
                req,
                avail,
            ).contains_key(k) && config_of(lines, req, avail)[k] == default_of(avail, k)->0,
{
    lemma_no_missing(req, settings_of(lines));
}

/// A key keeps the value of the last line that declares it.
pub proof fn lemma_last_declaration_wins(
    lines: Seq<Seq<char>>,
    i: int,
    k: Seq<char>,
    v: Seq<char>,
)
    requires
        0 <= i < lines.len(),
        line_pair(lines[i]) == Some((k, v)),
        forall|j: int|
            i < j < lines.len() ==> !(#[trigger] line_pair(lines[j]) matches Some(p) && p.0 == k),
    ensures
        settings_of(lines).contains_key(k),
        settings_of(lines)[k] == v,
    decreases lines.len(),
{
    if i < lines.len() - 1 {
        let p = lines.drop_last();
        assert(p[i] == lines[i]);
        assert forall|j: int| i < j < p.len() implies !(#[trigger] line_pair(p[j]) matches Some(
            q,
        ) && q.0 == k) by {
            assert(p[j] == lines[j]);
        }
        lemma_last_declaration_wins(p, i, k, v);
        assert(!(line_pair(lines[lines.len() - 1]) matches Some(q) && q.0 == k));
    }
}

/// In a successful read, a required key has the trimmed value of the last line
/// that declares it, whatever the case of the key on that line.
pub proof fn lemma_required_key_last_value(
    lines: Seq<Seq<char>>,
    req: Seq<Seq<char>>,
    avail: Seq<(Seq<char>, Seq<char>)>,
    i: int,
    k: Seq<char>,
    v: Seq<char>,
)
    requires
        first_bad(lines) is None,
        first_missing(req, settings_of(lines)) is None,
        req.contains(k),
        0 <= i < lines.len(),
        line_pair(lines[i]) == Some((k, v)),
        forall|j: int|
            i < j < lines.len() ==> !(#[trigger] line_pair(lines[j]) matches Some(p) && p.0 == k),
    ensures
        config_of(lines, req, avail).contains_key(k),
        config_of(lines, req, avail)[k] == v,
{
    lemma_last_declaration_wins(lines, i, k, v);
}

} // verus!
