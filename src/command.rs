//! The tokenizer/accumulator, which groups the tokens of a command under their
//! flags, and the parse of a whole command.
use vstd::prelude::*;
use crate::classify::{convert, spec_convert, ParseError, ValueModel};
use crate::collection::{
    assoc_map, find_key, has_key, keys_unique, lemma_assoc_at, lemma_assoc_push,
    lemma_assoc_update, TypedCollection,
};
use crate::text::{is_ws, split_whitespace, split_ws, substring, views};

verus! {

/// A token that names a flag: it begins with `--`.
pub open spec fn is_flag(t: Seq<char>) -> bool {
    t.len() >= 2 && t[0] == '-' && t[1] == '-'
}

/// The name of a flag token: what follows the `--`.
pub open spec fn flag_name(t: Seq<char>) -> Seq<char> {
    t.subrange(2, t.len() as int)
}

/// The set of names in `flags`.
pub open spec fn flag_set(flags: Seq<String>) -> Set<Seq<char>> {
    Set::new(|k: Seq<char>| exists|i: int| 0 <= i < flags.len() && #[trigger] flags[i]@ == k)
}

/// Where the accumulator stands after some tokens: the flags committed so far,
/// whether a flag is collecting values, its name, and the values it collected.
pub struct AccState {
    pub map: Map<Seq<char>, Seq<Seq<char>>>,
    pub active: bool,
    pub key: Seq<char>,
    pub buf: Seq<Seq<char>>,
}

/// The accumulator before any token.
pub open spec fn acc_init() -> AccState {
    AccState { map: Map::empty(), active: false, key: seq![], buf: seq![] }
}

/// One token read by the accumulator. A flag token commits the collecting flag
/// (if it has values), then either commits a boolean flag as `["true"]` at once
/// or starts collecting; a value token goes to the collecting flag, or is dropped
/// when none is collecting.
pub open spec fn acc_step(st: AccState, t: Seq<char>, flags: Set<Seq<char>>) -> AccState {
    if is_flag(t) {
        let m = if st.active && st.buf.len() > 0 {
            st.map.insert(st.key, st.buf)
        } else {
            st.map
        };
        let name = flag_name(t);
        if flags.contains(name) {
            AccState {
                map: m.insert(name, seq![seq!['t', 'r', 'u', 'e']]),
                active: false,
                key: name,
                buf: seq![],
            }
        } else {
            AccState { map: m, active: true, key: name, buf: seq![] }
        }
    } else if st.active {
        AccState { buf: st.buf.push(t), ..st }
    } else {
        st
    }
}

/// The accumulator after reading `toks` in order.
pub open spec fn acc_run(toks: Seq<Seq<char>>, flags: Set<Seq<char>>) -> AccState
    decreases toks.len(),
{
    if toks.len() == 0 {
        acc_init()
    } else {
        acc_step(acc_run(toks.drop_last(), flags), toks.last(), flags)
    }
}

/// The flags committed once the tokens end: the collecting flag too, if it has values.
pub open spec fn acc_finish(st: AccState) -> Map<Seq<char>, Seq<Seq<char>>> {
    if st.active && st.buf.len() > 0 {
        st.map.insert(st.key, st.buf)
    } else {
        st.map
    }
}

/// Each flag of `command` with the raw values it collected; a later occurrence of
/// a name replaces an earlier one.
pub open spec fn accumulate(command: Seq<char>, flags: Set<Seq<char>>) -> Map<
    Seq<char>,
    Seq<Seq<char>>,
> {
    acc_finish(acc_run(split_ws(command), flags))
}

/// The typed collection of `command`, or the error that aborts the parse: each
/// flag's values converted, unless one flag's values cannot be.
pub open spec fn spec_parse(command: Seq<char>, flags: Set<Seq<char>>) -> Result<
    Map<Seq<char>, ValueModel>,
    ParseError,
> {
    let raw = accumulate(command, flags);
    if forall|k: Seq<char>| raw.contains_key(k) ==> (#[trigger] spec_convert(raw[k])) is Ok {
        Ok(Map::new(|k: Seq<char>| raw.contains_key(k), |k: Seq<char>| spec_convert(raw[k])->Ok_0))
    } else {
        Err(ParseError::EmptyValueList)
    }
}

/// How the raw values of a flag are seen.
pub open spec fn raw_view() -> spec_fn(Vec<String>) -> Seq<Seq<char>> {
    |v: Vec<String>| views(v@)
}

/// Whether `t` is a flag token.
fn is_flag_token(t: &String) -> (r: bool)
    ensures
        r == is_flag(t@),
{
    let s = t.as_str();
    s.unicode_len() >= 2 && s.get_char(0) == '-' && s.get_char(1) == '-'
}

/// Whether `name` is one of `flags`.
fn contains_flag(flags: &Vec<String>, name: &String) -> (r: bool)
    ensures
        r == flag_set(flags@).contains(name@),
{
    let mut i: usize = 0;
    while i < flags.len()
        invariant
            i <= flags@.len(),
            forall|j: int| 0 <= j < i ==> #[trigger] flags@[j]@ != name@,
        decreases flags@.len() - i,
    {
        if flags[i] == *name {
            return true;
        }
        i = i + 1;
    }
    false
}

/// Stores `values` under `key`, replacing what the name held.
fn commit(entries: &mut Vec<(String, Vec<String>)>, key: String, values: Vec<String>)
    requires
        keys_unique(old(entries)@),
    ensures
        keys_unique(final(entries)@),
        assoc_map(final(entries)@, raw_view()) == assoc_map(old(entries)@, raw_view()).insert(
            key@,
            views(values@),
        ),
{
    match find_key(entries, &key) {
        Some(i) => {
            proof {
                lemma_assoc_update(entries@, raw_view(), i as int, key, values);
            }
            entries.set(i, (key, values));
        },
        None => {
            proof {
                lemma_assoc_push(entries@, raw_view(), key, values);
            }
            entries.push((key, values));
        },
    }
}

/// Each flag of `command` with the raw values it collected.
pub fn accumulate_flags(command: &str, boolean_flags: &Vec<String>) -> (r: Vec<(String, Vec<String>)>)
    ensures
        keys_unique(r@),
        assoc_map(r@, raw_view()) == accumulate(command@, flag_set(boolean_flags@)),
{
    let ghost flags = flag_set(boolean_flags@);
    let toks = split_whitespace(command);
    let ghost tv = views(toks@);
    let mut entries: Vec<(String, Vec<String>)> = Vec::new();
    let mut active = false;
    let mut key = String::new();
    let mut buf: Vec<String> = Vec::new();
    let mut i: usize = 0;
    assert(assoc_map(entries@, raw_view()) =~= Map::<Seq<char>, Seq<Seq<char>>>::empty());
    assert(views(buf@) =~= Seq::<Seq<char>>::empty());
    proof {
        reveal_strlit("true");
    }
    while i < toks.len()
        invariant
            tv == views(toks@),
            tv == split_ws(command@),
            flags == flag_set(boolean_flags@),
            i <= toks@.len(),
            keys_unique(entries@),
            assoc_map(entries@, raw_view()) == acc_run(tv.subrange(0, i as int), flags).map,
            active == acc_run(tv.subrange(0, i as int), flags).active,
            key@ == acc_run(tv.subrange(0, i as int), flags).key,
            views(buf@) == acc_run(tv.subrange(0, i as int), flags).buf,
        decreases toks@.len() - i,
    {
        assert(tv.subrange(0, i + 1).drop_last() =~= tv.subrange(0, i as int));
        let t = &toks[i];
        if is_flag_token(t) {
            if active && buf.len() > 0 {
                let values = buf;
                buf = Vec::new();
                commit(&mut entries, key.clone(), values);
            } else {
                buf = Vec::new();
            }
            assert(views(buf@) =~= Seq::<Seq<char>>::empty());
            let tstr = t.as_str();
            let name = substring(tstr, 2, tstr.unicode_len());
            if contains_flag(boolean_flags, &name) {
                proof {
                    reveal_strlit("true");
                    assert("true"@ =~= seq!['t', 'r', 'u', 'e']);
                }
                let truth = vec!["true".to_owned()];
                assert(views(truth@) =~= seq![seq!['t', 'r', 'u', 'e']]);
                commit(&mut entries, name.clone(), truth);
                active = false;
            } else {
                active = true;
            }
            key = name;
        } else if active {
            let ghost before = buf@;
            buf.push(t.clone());
            assert(views(buf@) =~= views(before).push(t@));
        }
        i = i + 1;
    }
    assert(tv.subrange(0, toks@.len() as int) =~= tv);
    if active && buf.len() > 0 {
        commit(&mut entries, key, buf);
    }
    entries
}

/// The typed collection of `command`, with the flags named in `boolean_flags`
/// taken as valueless booleans; the first flag whose values cannot be converted
/// aborts the whole parse.
pub fn parse_custom_command(command: &str, boolean_flags: &Vec<String>) -> (r: Result<
    TypedCollection,
    ParseError,
>)
    ensures
        match r {
            Ok(c) => c.wf() && spec_parse(command@, flag_set(boolean_flags@)) == Ok::<
                Map<Seq<char>, ValueModel>,
                ParseError,
            >(c@),
            Err(e) => spec_parse(command@, flag_set(boolean_flags@)) == Err::<
                Map<Seq<char>, ValueModel>,
                ParseError,
            >(e),
        },
        r matches Err(e) ==> e == ParseError::EmptyValueList,
{
    let raw = accumulate_flags(command, boolean_flags);
    let ghost rm = accumulate(command@, flag_set(boolean_flags@));
    let mut out = TypedCollection::new();
    let mut i: usize = 0;
    while i < raw.len()
        invariant
            i <= raw@.len(),
            keys_unique(raw@),
            assoc_map(raw@, raw_view()) == rm,
            rm == accumulate(command@, flag_set(boolean_flags@)),
            out.wf(),
            forall|k: Seq<char>|
                #[trigger] out@.contains_key(k) <==> exists|j: int|
                    0 <= j < i && #[trigger] raw@[j].0@ == k,
            forall|j: int|
                0 <= j < i ==> spec_convert(views(#[trigger] raw@[j].1@)) == Ok::<
                    ValueModel,
                    ParseError,
                >(out@[raw@[j].0@]),
        decreases raw@.len() - i,
    {
        match convert(&raw[i].1) {
            Ok(v) => {
                let k = raw[i].0.clone();
                assert(!out@.contains_key(k@));
                out.insert_new(k, v);
            },
            Err(e) => {
                proof {
                    lemma_assoc_at(raw@, raw_view(), i as int);
                    let k = raw@[i as int].0@;
                    assert(rm.contains_key(k));
                    assert(rm[k] == views(raw@[i as int].1@));
                    assert(spec_convert(rm[k]) == Err::<ValueModel, ParseError>(e));
                    assert(e == ParseError::EmptyValueList);
                    assert(!(spec_convert(rm[k]) is Ok));

                }
                return Err(e);
            },
        }
        i = i + 1;
    }
    proof {
        let target = Map::new(
            |k: Seq<char>| rm.contains_key(k),
            |k: Seq<char>| spec_convert(rm[k])->Ok_0,
        );
        assert forall|k: Seq<char>| rm.contains_key(k) implies (#[trigger] spec_convert(
            rm[k],
        )) is Ok by {
            let j = choose|j: int| 0 <= j < raw@.len() && #[trigger] raw@[j].0@ == k;
            lemma_assoc_at(raw@, raw_view(), j);
        }
        assert forall|k: Seq<char>| #[trigger] out@.contains_key(k) == rm.contains_key(k) by {
            if rm.contains_key(k) {
                let j = choose|j: int| 0 <= j < raw@.len() && #[trigger] raw@[j].0@ == k;
                assert(out@.contains_key(raw@[j].0@));
            }
            if out@.contains_key(k) {
                let j = choose|j: int| 0 <= j < i && #[trigger] raw@[j].0@ == k;
                lemma_assoc_at(raw@, raw_view(), j);
            }
        }
        assert forall|k: Seq<char>| #[trigger] out@.contains_key(k) implies out@[k] == target[k] by {
            let j = choose|j: int| 0 <= j < i && #[trigger] raw@[j].0@ == k;
            lemma_assoc_at(raw@, raw_view(), j);
        }
        assert(out@ =~= target);
    }
    Ok(out)
}

pub proof fn lemma_split_blank(s: Seq<char>)
    requires
        forall|i: int| 0 <= i < s.len() ==> is_ws(#[trigger] s[i]),
    ensures
        split_ws(s) == Seq::<Seq<char>>::empty(),
    decreases s.len(),
{
    if s.len() > 0 {
        let d = s.drop_last();
        assert(forall|i: int| 0 <= i < d.len() ==> d[i] == s[i]);
        lemma_split_blank(d);
        assert(is_ws(s[s.len() - 1]));
    }
}

/// A command that is empty or all whitespace parses to an empty collection,
/// whatever the boolean flags.
pub proof fn lemma_blank_command(command: Seq<char>, flags: Set<Seq<char>>)
    requires
        forall|i: int| 0 <= i < command.len() ==> is_ws(#[trigger] command[i]),
    ensures
        spec_parse(command, flags) == Ok::<Map<Seq<char>, ValueModel>, ParseError>(
            Map::empty(),
        ),
{
    lemma_split_blank(command);
    assert(accumulate(command, flags) == Map::<Seq<char>, Seq<Seq<char>>>::empty());
    assert(Map::new(
        |k: Seq<char>| accumulate(command, flags).contains_key(k),
        |k: Seq<char>| spec_convert(accumulate(command, flags)[k])->Ok_0,
    ) =~= Map::<Seq<char>, ValueModel>::empty());
}

pub proof fn lemma_run_prefix(toks: Seq<Seq<char>>, flags: Set<Seq<char>>, i: int)
    requires
        0 <= i < toks.len(),
    ensures
        acc_run(toks.subrange(0, i + 1), flags) == acc_step(
            acc_run(toks.subrange(0, i), flags),
            toks[i],
            flags,
        ),
{
    assert(toks.subrange(0, i + 1).drop_last() =~= toks.subrange(0, i));
}

/// While the values after the flag token at `p` are read, that flag collects them.
pub proof fn lemma_run_collecting(
    toks: Seq<Seq<char>>,
    flags: Set<Seq<char>>,
    p: int,
    q: int,
    i: int,
)
    requires
        0 <= p < q <= toks.len(),
        is_flag(toks[p]),
        !flags.contains(flag_name(toks[p])),
        forall|j: int| p < j < q ==> !is_flag(#[trigger] toks[j]),
        p + 1 <= i <= q,
    ensures
        acc_run(toks.subrange(0, i), flags).active,
        acc_run(toks.subrange(0, i), flags).key == flag_name(toks[p]),
        acc_run(toks.subrange(0, i), flags).buf == toks.subrange(p + 1, i),
    decreases i,
{
    if i == p + 1 {
        lemma_run_prefix(toks, flags, p);
        assert(toks.subrange(p + 1, i) =~= Seq::<Seq<char>>::empty());
    } else {
        lemma_run_collecting(toks, flags, p, q, i - 1);
        lemma_run_prefix(toks, flags, i - 1);
        assert(!is_flag(toks[i - 1]));
        assert(toks.subrange(p + 1, i) =~= toks.subrange(p + 1, i - 1).push(toks[i - 1]));
    }
}

/// After the values of the last occurrence of a flag, what the flag holds stays,
/// and no later token makes it the collecting flag again.
pub proof fn lemma_run_after(
    toks: Seq<Seq<char>>,
    flags: Set<Seq<char>>,
    p: int,
    q: int,
    i: int,
)
    requires
        0 <= p,
        p + 1 < q < toks.len(),
        is_flag(toks[p]),
        !flags.contains(flag_name(toks[p])),
        forall|j: int| p < j < q ==> !is_flag(#[trigger] toks[j]),
        is_flag(toks[q]),
        forall|j: int|
            p < j < toks.len() && is_flag(#[trigger] toks[j]) ==> flag_name(toks[j]) != flag_name(
                toks[p],
            ),
        q + 1 <= i <= toks.len(),
    ensures
        acc_run(toks.subrange(0, i), flags).map.contains_key(flag_name(toks[p])),
        acc_run(toks.subrange(0, i), flags).map[flag_name(toks[p])] == toks.subrange(p + 1, q),
        acc_run(toks.subrange(0, i), flags).key != flag_name(toks[p]),
    decreases i,
{
    lemma_run_prefix(toks, flags, i - 1);
    if i == q + 1 {
        lemma_run_collecting(toks, flags, p, q, q);
    } else {
        lemma_run_after(toks, flags, p, q, i - 1);
    }
}

/// When a flag that is not boolean is given more than once, it holds the values
/// that follow its last occurrence (up to the next flag or the end), and none of
/// those of earlier occurrences: `p` is the last token naming the flag, and the
/// tokens after it up to `q` are its values.
pub proof fn lemma_last_occurrence_wins(
    command: Seq<char>,
    flags: Set<Seq<char>>,
    p: int,
    q: int,
)
    requires
        0 <= p,
        p + 1 < q <= split_ws(command).len(),
        is_flag(split_ws(command)[p]),
        !flags.contains(flag_name(split_ws(command)[p])),
        forall|j: int| p < j < q ==> !is_flag(#[trigger] split_ws(command)[j]),
        q == split_ws(command).len() || is_flag(split_ws(command)[q]),
        forall|j: int|
            p < j < split_ws(command).len() && is_flag(#[trigger] split_ws(command)[j])
                ==> flag_name(split_ws(command)[j]) != flag_name(split_ws(command)[p]),
    ensures
        accumulate(command, flags).contains_key(flag_name(split_ws(command)[p])),
        accumulate(command, flags)[flag_name(split_ws(command)[p])] == split_ws(command).subrange(
            p + 1,
            q,
        ),
        spec_parse(command, flags) matches Ok(m) ==> m[flag_name(split_ws(command)[p])]
            == spec_convert(split_ws(command).subrange(p + 1, q))->Ok_0,
{
    let toks = split_ws(command);
    let n = toks.len();
    assert(toks.subrange(0, n as int) =~= toks);
    if q == n {
        lemma_run_collecting(toks, flags, p, q, q);
    } else {
        lemma_run_after(toks, flags, p, q, n as int);
    }
}

} // verus!
