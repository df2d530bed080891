//! Document-level laws relating the parser and the emitter: what every
//! parsed document looks like, that blank lines never matter, what emitting
//! trivial documents yields, and the emit-then-parse round trip.

use vstd::prelude::*;

use crate::emitter::{doc_lines, emit_spec, item_line, join_lines, mapping_lines, string_line};
use crate::parser::{
    close_entry, consume_line, finish, init_state, lemma_run_lines_append, line_step, parse_spec,
    run_lines, step_closed, ParseState,
};
use crate::text::{
    find_sep, is_sep_at, is_space, lemma_find_sep_spec, lemma_spaces_all,
    lemma_split_lines_no_newline, lemma_trim_end_prefix, lemma_trim_of_clean,
    lemma_trim_start_space_only, lemma_trim_start_spaces, lemma_trim_start_suffix,
    lemma_trimmed_ends, spaces, split_lines, starts_dash, trim, trim_end, trim_start,
};
use crate::{SpecMapping, SpecValue};

verus! {

/// A piece of text as parsing produces it: trimmed and free of newlines.
pub open spec fn wf_text(s: Seq<char>) -> bool {
    &&& trim(s) == s
    &&& forall|k: int| 0 <= k < s.len() ==> s[k] != '\n'
}

/// A key as parsing produces it: trimmed, free of newlines, and free of the
/// `": "` separator.
pub open spec fn wf_key(k: Seq<char>) -> bool {
    &&& wf_text(k)
    &&& forall|j: int| !is_sep_at(k, j)
}

/// A list item as parsing produces it: trimmed, free of newlines, nonempty.
pub open spec fn wf_item(it: Seq<char>) -> bool {
    wf_text(it) && it.len() > 0
}

/// An entry as parsing produces it.  A string entry has a well-formed key
/// and a trimmed, nonempty, newline-free value; a list entry has a
/// well-formed, nonempty key and well-formed items.
pub open spec fn wf_entry(m: SpecMapping) -> bool {
    match m.value {
        SpecValue::String(v) => wf_key(m.key) && wf_text(v) && v.len() > 0,
        SpecValue::List(items) => wf_key(m.key) && m.key.len() > 0 && forall|i: int|
            0 <= i < items.len() ==> wf_item(items[i]),
    }
}

/// In a parsed document, an entry that follows a list entry never has a key
/// that begins with the `"- "` marker: such a line would have extended the
/// list instead.
pub open spec fn pairs_ok(ms: Seq<SpecMapping>) -> bool {
    forall|i: int|
        0 <= i < ms.len() - 1 && ms[i].value is List ==> !starts_dash(#[trigger] ms[i + 1].key)
}

/// A document exactly as parsing can produce it.
pub open spec fn wf_doc(ms: Seq<SpecMapping>) -> bool {
    &&& forall|i: int| 0 <= i < ms.len() ==> wf_entry(#[trigger] ms[i])
    &&& pairs_ok(ms)
}

/// The invariant the machine maintains while consuming trimmed nonempty
/// lines: the entries so far form a well-formed document, an open list has a
/// well-formed nonempty key and well-formed items, an open list that follows
/// a list entry has no `"- "`-initial key, and with no list open the last
/// entry is never a list entry.
pub open spec fn state_inv(st: ParseState) -> bool {
    &&& wf_doc(st.0)
    &&& match st.1 {
        Some(open) => {
            &&& wf_key(open.0)
            &&& open.0.len() > 0
            &&& forall|i: int| 0 <= i < open.1.len() ==> wf_item(#[trigger] open.1[i])
            &&& (st.0.len() > 0 && st.0.last().value is List ==> !starts_dash(open.0))
        },
        None => st.0.len() == 0 || !(st.0.last().value is List),
    }
}

/// A well-formed document stays well-formed under one more entry whose key
/// respects the marker rule.
proof fn lemma_wf_doc_push(ms: Seq<SpecMapping>, m: SpecMapping)
    requires
        wf_doc(ms),
        wf_entry(m),
        ms.len() > 0 && ms.last().value is List ==> !starts_dash(m.key),
    ensures
        wf_doc(ms.push(m)),
{
    let r = ms.push(m);
    assert forall|i: int| 0 <= i < r.len() implies wf_entry(#[trigger] r[i]) by {
        if i < ms.len() {
            assert(wf_entry(ms[i]));
        }
    }
    assert forall|i: int|
        0 <= i < r.len() - 1 && r[i].value is List implies !starts_dash(
        #[trigger] r[i + 1].key,
    ) by {
        if i + 1 < ms.len() {
            assert(ms[i].value is List ==> !starts_dash(ms[i + 1].key));
        } else {
            assert(r[i] == ms.last());
            assert(r[i + 1] == m);
        }
    }
}

/// The two halves of a line split at its first separator are well formed,
/// and the key inherits the absence of the `"- "` marker from the line.
proof fn lemma_split_parts(line: Seq<char>, i: int)
    requires
        trim(line) == line,
        line.len() > 0,
        forall|k: int| 0 <= k < line.len() ==> line[k] != '\n',
        find_sep(line) == Some(i),
    ensures
        wf_key(trim_end(line.subrange(0, i))),
        wf_item(trim_start(line.subrange(i + 2, line.len() as int))),
        !starts_dash(line) ==> !starts_dash(trim_end(line.subrange(0, i))),
{
    lemma_find_sep_spec(line);
    lemma_trimmed_ends(line);
    assert(is_sep_at(line, i));
    assert(is_space(' '));
    let p = line.subrange(0, i);
    let key = trim_end(p);
    lemma_trim_end_prefix(p);
    if key.len() > 0 {
        assert(key[0] == line[0]);
        lemma_trim_of_clean(key);
    }
    assert forall|j: int| !is_sep_at(key, j) by {
        if 0 <= j && j + 1 < key.len() {
            assert(key[j] == line[j]);
            assert(key[j + 1] == line[j + 1]);
            assert(is_sep_at(key, j) ==> is_sep_at(line, j) && j < i);
        }
    }
    let x = line.subrange(i + 2, line.len() as int);
    let v = trim_start(x);
    lemma_trim_start_suffix(x);
    if x.len() == 0 {
        assert(line[line.len() - 1] == line[i + 1]);
        assert(false);
    }
    if v.len() == 0 {
        lemma_trim_start_space_only(x);
        assert(is_space(x[x.len() - 1]));
        assert(x[x.len() - 1] == line[line.len() - 1]);
        assert(false);
    }
    assert(v[v.len() - 1] == x[x.len() - 1]);
    assert(x[x.len() - 1] == line[line.len() - 1]);
    lemma_trim_of_clean(v);
    assert(forall|k: int| 0 <= k < v.len() ==> v[k] == x[x.len() - v.len() + k]);
    if starts_dash(key) {
        assert(key[0] == line[0]);
        assert(key[1] == line[1]);
        assert(starts_dash(line));
    }
}

/// One step from a state with no open list preserves the invariant, when the
/// line cannot be mistaken for a list item of a preceding list entry.
proof fn lemma_step_closed_inv(ms: Seq<SpecMapping>, line: Seq<char>)
    requires
        wf_doc(ms),
        trim(line) == line,
        line.len() > 0,
        forall|k: int| 0 <= k < line.len() ==> line[k] != '\n',
        ms.len() > 0 && ms.last().value is List ==> !starts_dash(line),
    ensures
        state_inv(step_closed(ms, line)),
{
    lemma_find_sep_spec(line);
    match find_sep(line) {
        Some(i) => {
            lemma_split_parts(line, i);
            let key = trim_end(line.subrange(0, i));
            let v = trim_start(line.subrange(i + 2, line.len() as int));
            let m = SpecMapping { key: key, value: SpecValue::String(v) };
            lemma_wf_doc_push(ms, m);
            assert(ms.push(m).last() == m);
        },
        None => {
            assert(wf_key(line));
        },
    }
}

/// One step of the machine preserves the invariant.
proof fn lemma_line_step_inv(st: ParseState, line: Seq<char>)
    requires
        state_inv(st),
        trim(line) == line,
        line.len() > 0,
        forall|k: int| 0 <= k < line.len() ==> line[k] != '\n',
    ensures
        state_inv(line_step(st, line)),
{
    lemma_trimmed_ends(line);
    match st.1 {
        Some(open) => {
            if starts_dash(line) {
                assert(is_space(' '));
                let x = line.subrange(2, line.len() as int);
                let it = trim_start(x);
                lemma_trim_start_suffix(x);
                if x.len() == 0 {
                    assert(line[line.len() - 1] == line[1]);
                    assert(false);
                }
                if it.len() == 0 {
                    lemma_trim_start_space_only(x);
                    assert(is_space(x[x.len() - 1]));
                    assert(x[x.len() - 1] == line[line.len() - 1]);
                    assert(false);
                }
                assert(it[it.len() - 1] == x[x.len() - 1]);
                assert(x[x.len() - 1] == line[line.len() - 1]);
                lemma_trim_of_clean(it);
                assert(forall|k: int| 0 <= k < it.len() ==> it[k] == x[x.len() - it.len() + k]);
                assert(wf_item(it));
                let pushed = open.1.push(it);
                assert(forall|i: int| 0 <= i < pushed.len() ==> wf_item(#[trigger] pushed[i]));
            } else {
                let m = close_entry(open.0, open.1);
                lemma_wf_doc_push(st.0, m);
                let ms1 = st.0.push(m);
                assert(ms1.last() == m);
                lemma_step_closed_inv(ms1, line);
            }
        },
        None => {
            lemma_step_closed_inv(st.0, line);
        },
    }
}

/// Consuming one raw line preserves the invariant.
proof fn lemma_consume_line_inv(st: ParseState, raw: Seq<char>)
    requires
        state_inv(st),
        forall|k: int| 0 <= k < raw.len() ==> raw[k] != '\n',
    ensures
        state_inv(consume_line(st, raw)),
{
    let t = trim(raw);
    if t.len() > 0 {
        let u = trim_start(raw);
        lemma_trim_start_suffix(raw);
        lemma_trim_end_prefix(u);
        assert(t[0] == u[0]);
        assert(!is_space(t[0]));
        assert(!is_space(t[t.len() - 1]));
        lemma_trim_of_clean(t);
        assert(forall|k: int| 0 <= k < u.len() ==> u[k] == raw[raw.len() - u.len() + k]);
        assert(forall|k: int| 0 <= k < t.len() ==> t[k] == u[k]);
        lemma_line_step_inv(st, t);
    }
}

/// Running the machine over newline-free lines preserves the invariant.
proof fn lemma_run_lines_inv(st: ParseState, lines: Seq<Seq<char>>)
    requires
        state_inv(st),
        forall|i: int, k: int|
            0 <= i < lines.len() && 0 <= k < lines[i].len() ==> lines[i][k] != '\n',
    ensures
        state_inv(run_lines(st, lines)),
    decreases lines.len(),
{
    if lines.len() > 0 {
        lemma_consume_line_inv(st, lines[0]);
        lemma_run_lines_inv(consume_line(st, lines[0]), lines.subrange(1, lines.len() as int));
    }
}

/// Every parsed document is well formed: keys and values trimmed and free of
/// newlines, keys free of the separator, list items nonempty, list keys
/// nonempty, and no entry after a list entry keyed with the `"- "` marker.
pub proof fn lemma_parse_wf(text: Seq<char>)
    ensures
        wf_doc(parse_spec(text)),
{
    lemma_split_lines_no_newline(text);
    assert(state_inv(init_state()));
    lemma_run_lines_inv(init_state(), split_lines(text));
    let st = run_lines(init_state(), split_lines(text));
    match st.1 {
        Some(open) => {
            lemma_wf_doc_push(st.0, close_entry(open.0, open.1));
        },
        None => {},
    }
}

/// Consuming an emitted `key: value` line closes any open list and appends
/// the string entry back, exactly as it was.
proof fn lemma_consume_string_line(st: ParseState, key: Seq<char>, v: Seq<char>)
    requires
        wf_key(key),
        wf_text(v),
        v.len() > 0,
        st.1 is Some ==> !starts_dash(key),
    ensures
        consume_line(st, string_line(key, v)) == ((
            finish(st).push(SpecMapping { key: key, value: SpecValue::String(v) }),
            None::<(Seq<char>, Seq<Seq<char>>)>,
        )),
{
    let line = string_line(key, v);
    assert(!is_space(':'));
    assert(!is_space('-') && '-' != ':');
    lemma_trimmed_ends(v);
    assert(line.len() == key.len() + 2 + v.len());
    assert(line[key.len() as int] == ':');
    assert(line[key.len() + 1 as int] == ' ');
    assert(forall|k: int| 0 <= k < key.len() ==> line[k] == key[k]);
    assert(forall|k: int| 0 <= k < v.len() ==> line[key.len() + 2 + k as int] == v[k]);
    if key.len() > 0 {
        lemma_trimmed_ends(key);
        assert(line[0] == key[0]);
    }
    assert(line[line.len() - 1] == v[v.len() - 1]);
    lemma_trim_of_clean(line);
    assert(trim(line).len() > 0);
    if st.1 is Some {
        if starts_dash(line) {
            assert(line[0] == '-' && line[1] == ' ');
            if key.len() >= 2 {
                assert(starts_dash(key));
            } else if key.len() == 1 {
                assert(line[1] == ':');
            } else {
                assert(line[0] == ':');
            }
            assert(false);
        }
    }
    assert(is_sep_at(line, key.len() as int));
    assert forall|j: int| 0 <= j < key.len() implies !is_sep_at(line, j) by {
        if j + 1 < key.len() {
            assert(is_sep_at(line, j) ==> is_sep_at(key, j));
        } else {
            assert(line[j + 1] == ':');
        }
    }
    lemma_find_sep_spec(line);
    let fs = find_sep(line);
    assert(fs is Some) by {
        if fs is None {
            assert(!is_sep_at(line, key.len() as int));
        }
    }
    let i = fs->0;
    assert(i == key.len()) by {
        if i < key.len() {
            assert(!is_sep_at(line, i));
        }
        if i > key.len() {
            assert(!is_sep_at(line, key.len() as int));
        }
    }
    assert(line.subrange(0, i) =~= key);
    assert(trim_end(key) == key) by {
        if key.len() > 0 {
            lemma_trimmed_ends(key);
        }
    }
    assert(line.subrange(i + 2, line.len() as int) =~= v);
    assert(trim_start(v) == v) by {
        lemma_trimmed_ends(v);
    }
    match st.1 {
        Some(open) => {
            assert(!starts_dash(line));
        },
        None => {},
    }
}

/// Consuming an emitted bare key line closes any open list and opens a new
/// list with that key and no items.
proof fn lemma_consume_key_line(st: ParseState, key: Seq<char>)
    requires
        wf_key(key),
        key.len() > 0,
        st.1 is Some ==> !starts_dash(key),
    ensures
        consume_line(st, key) == ((finish(st), Some((key, Seq::<Seq<char>>::empty())))),
{
    assert(trim(key) == key);
    lemma_find_sep_spec(key);
    assert(find_sep(key) is None) by {
        if find_sep(key) is Some {
            assert(is_sep_at(key, find_sep(key)->0));
        }
    }
}

/// Consuming an emitted item line extends the open list by exactly that
/// item.
proof fn lemma_consume_item_line(
    ms: Seq<SpecMapping>,
    key: Seq<char>,
    done: Seq<Seq<char>>,
    item: Seq<char>,
    indent: nat,
)
    requires
        wf_item(item),
    ensures
        consume_line((ms, Some((key, done))), item_line(indent, item)) == ((
            ms,
            Some((key, done.push(item))),
        )),
{
    let line = item_line(indent, item);
    let t = seq!['-', ' '] + item;
    assert(!is_space('-'));
    lemma_trimmed_ends(item);
    assert(line =~= spaces(indent) + t);
    lemma_trim_start_spaces(indent, t);
    assert(t[0] == '-');
    assert(trim_start(t) == t);
    assert(t[t.len() - 1] == item[item.len() - 1]);
    assert(trim_end(t) == t);
    assert(trim(line) == t);
    assert(t.len() > 0);
    assert(t[1] == ' ');
    assert(starts_dash(t));
    assert(t.subrange(2, t.len() as int) =~= item);
    assert(trim_start(item) == item);
}

/// Running the machine over the emitted item lines accumulates exactly the
/// items.
proof fn lemma_run_item_lines(
    ms: Seq<SpecMapping>,
    key: Seq<char>,
    done: Seq<Seq<char>>,
    items: Seq<Seq<char>>,
    indent: nat,
)
    requires
        forall|i: int| 0 <= i < items.len() ==> wf_item(#[trigger] items[i]),
    ensures
        run_lines(
            (ms, Some((key, done))),
            items.map_values(|it: Seq<char>| item_line(indent, it)),
        ) == ((ms, Some((key, done + items)))),
    decreases items.len(),
{
    let mapped = items.map_values(|it: Seq<char>| item_line(indent, it));
    if items.len() == 0 {
        assert(done + items =~= done);
        assert(mapped.len() == 0);
    } else {
        assert(mapped[0] == item_line(indent, items[0]));
        lemma_consume_item_line(ms, key, done, items[0], indent);
        let rest = items.subrange(1, items.len() as int);
        lemma_run_item_lines(ms, key, done.push(items[0]), rest, indent);
        assert(mapped.subrange(1, mapped.len() as int) =~= rest.map_values(
            |it: Seq<char>| item_line(indent, it),
        ));
        assert(done.push(items[0]) + rest =~= done + items);
    }
}

/// No emitted line of a well-formed document contains a newline.
proof fn lemma_doc_lines_no_newline(ms: Seq<SpecMapping>, indent: nat)
    requires
        wf_doc(ms),
    ensures
        forall|i: int, k: int|
            0 <= i < doc_lines(ms, indent).len() && 0 <= k < doc_lines(ms, indent)[i].len()
                ==> doc_lines(ms, indent)[i][k] != '\n',
    decreases ms.len(),
{
    if ms.len() > 0 {
        let m = ms[0];
        let first = mapping_lines(m, indent);
        let rest = ms.subrange(1, ms.len() as int);
        assert(wf_entry(m));
        assert forall|i: int, k: int|
            0 <= i < first.len() && 0 <= k < first[i].len() implies first[i][k] != '\n' by {
            match m.value {
                SpecValue::String(v) => {
                    assert(first[i] == string_line(m.key, v));
                },
                SpecValue::List(items) => {
                    if i == 0 {
                        assert(first[i] == m.key);
                    } else {
                        let mapped = items.map_values(|it: Seq<char>| item_line(indent, it));
                        assert(first[i] == mapped[i - 1]);
                        assert(mapped[i - 1] == item_line(indent, items[i - 1]));
                        assert(wf_item(items[i - 1]));
                        lemma_spaces_all(indent);
                    }
                },
            }
        }
        assert(wf_doc(rest)) by {
            assert(forall|i: int| 0 <= i < rest.len() ==> rest[i] == ms[i + 1]);
            assert forall|i: int|
                0 <= i < rest.len() - 1 && rest[i].value is List implies !starts_dash(
                #[trigger] rest[i + 1].key,
            ) by {
                assert(ms[i + 1].value is List ==> !starts_dash(ms[i + 2].key));
            }
        }
        lemma_doc_lines_no_newline(rest, indent);
        assert(forall|i: int|
            0 <= i < doc_lines(ms, indent).len() ==> #[trigger] doc_lines(ms, indent)[i] == (
            if i < first.len() {
                first[i]
            } else {
                doc_lines(rest, indent)[i - first.len()]
            }));
    }
}

/// Splitting joined newline-free lines gives the lines back, followed by the
/// one empty piece after the final terminator.
proof fn lemma_split_join(lines: Seq<Seq<char>>)
    requires
        forall|i: int, k: int|
            0 <= i < lines.len() && 0 <= k < lines[i].len() ==> lines[i][k] != '\n',
    ensures
        split_lines(join_lines(lines)) == lines + seq![Seq::<char>::empty()],
    decreases lines.len(),
{
    if lines.len() == 0 {
        assert(join_lines(lines) == Seq::<char>::empty());
        assert(split_lines(Seq::<char>::empty()) =~~= lines + seq![Seq::<char>::empty()]);
    } else {
        let l0 = lines[0];
        let rest = lines.subrange(1, lines.len() as int);
        let s = join_lines(lines);
        let tail = join_lines(rest);
        assert(s == l0 + seq!['\n'] + tail);
        assert(s.len() == l0.len() + 1 + tail.len());
        assert(forall|k: int| 0 <= k < l0.len() ==> s[k] == l0[k]);
        assert(s[l0.len() as int] == '\n');
        crate::text::lemma_split_lines_first(s, l0.len() as int);
        assert(s.subrange(0, l0.len() as int) =~= l0);
        assert(s.subrange(l0.len() + 1 as int, s.len() as int) =~= tail);
        lemma_split_join(rest);
        assert(split_lines(s) == seq![l0] + (rest + seq![Seq::<char>::empty()]));
        assert(seq![l0] + (rest + seq![Seq::<char>::empty()]) =~= lines + seq![
            Seq::<char>::empty(),
        ]);
    }
}

/// The machine, run over the emitted lines of a well-formed document from
/// any state whose open list the first emitted key cannot extend, ends with
/// exactly the prior entries followed by the document.
proof fn lemma_run_doc(st: ParseState, ms: Seq<SpecMapping>, indent: nat)
    requires
        wf_doc(ms),
        st.1 is Some && ms.len() > 0 ==> !starts_dash(ms[0].key),
    ensures
        finish(run_lines(st, doc_lines(ms, indent))) == finish(st) + ms,
    decreases ms.len(),
{
    if ms.len() == 0 {
        assert(finish(st) + ms =~= finish(st));
    } else {
        let m = ms[0];
        let rest = ms.subrange(1, ms.len() as int);
        assert(wf_entry(m));
        assert(wf_doc(rest)) by {
            assert(forall|i: int| 0 <= i < rest.len() ==> rest[i] == ms[i + 1]);
            assert forall|i: int|
                0 <= i < rest.len() - 1 && rest[i].value is List implies !starts_dash(
                #[trigger] rest[i + 1].key,
            ) by {
                assert(ms[i + 1].value is List ==> !starts_dash(ms[i + 2].key));
            }
        }
        let first = mapping_lines(m, indent);
        assert(doc_lines(ms, indent) == first + doc_lines(rest, indent));
        lemma_run_lines_append(st, first, doc_lines(rest, indent));
        match m.value {
            SpecValue::String(v) => {
                assert(first =~= seq![string_line(m.key, v)]);
                crate::parser::lemma_run_lines_singleton(st, string_line(m.key, v));
                lemma_consume_string_line(st, m.key, v);
                let st1 = (
                    finish(st).push(SpecMapping { key: m.key, value: SpecValue::String(v) }),
                    None::<(Seq<char>, Seq<Seq<char>>)>,
                );
                assert(run_lines(st, first) == st1);
                assert(SpecMapping { key: m.key, value: SpecValue::String(v) } == m);
                lemma_run_doc(st1, rest, indent);
                assert(finish(st1) == finish(st).push(m));
                assert(finish(st).push(m) + rest =~= finish(st) + ms);
            },
            SpecValue::List(items) => {
                let mapped = items.map_values(|it: Seq<char>| item_line(indent, it));
                assert(first == seq![m.key] + mapped);
                lemma_run_lines_append(st, seq![m.key], mapped);
                crate::parser::lemma_run_lines_singleton(st, m.key);
                lemma_consume_key_line(st, m.key);
                let st1 = (finish(st), Some((m.key, Seq::<Seq<char>>::empty())));
                assert(run_lines(st, seq![m.key]) == st1);
                lemma_run_item_lines(finish(st), m.key, Seq::<Seq<char>>::empty(), items, indent);
                assert(Seq::<Seq<char>>::empty() + items =~= items);
                let st2 = (finish(st), Some((m.key, items)));
                assert(run_lines(st, first) == st2);
                assert(st2.1 is Some && rest.len() > 0 ==> !starts_dash(rest[0].key)) by {
                    if rest.len() > 0 {
                        assert(ms[0].value is List ==> !starts_dash(ms[1].key));
                        assert(rest[0] == ms[1]);
                    }
                }
                lemma_run_doc(st2, rest, indent);
                assert(finish(st2) == finish(st).push(close_entry(m.key, items)));
                assert(close_entry(m.key, items) == m);
                assert(finish(st).push(m) + rest =~= finish(st) + ms);
            },
        }
    }
}

/// Parsing what the emitter produced from a well-formed document gives that
/// document back, whatever the indentation width.
pub proof fn lemma_parse_emit(ms: Seq<SpecMapping>, indent: nat)
    requires
        wf_doc(ms),
    ensures
        parse_spec(emit_spec(ms, indent)) == ms,
{
    let lines = doc_lines(ms, indent);
    lemma_doc_lines_no_newline(ms, indent);
    lemma_split_join(lines);
    assert(split_lines(emit_spec(ms, indent)) == lines + seq![Seq::<char>::empty()]);
    lemma_run_lines_append(init_state(), lines, seq![Seq::<char>::empty()]);
    let st = run_lines(init_state(), lines);
    crate::parser::lemma_run_lines_singleton(st, Seq::<char>::empty());
    assert(trim(Seq::<char>::empty()).len() == 0);
    assert(consume_line(st, Seq::<char>::empty()) == st);
    lemma_run_doc(init_state(), ms, indent);
    assert(finish(init_state()) + ms =~= ms);
}

/// The round trip: emitting a parsed document and parsing the result yields
/// the same document, for every input text and every indentation width.
pub proof fn lemma_round_trip(text: Seq<char>, indent: nat)
    ensures
        parse_spec(emit_spec(parse_spec(text), indent)) == parse_spec(text),
{
    lemma_parse_wf(text);
    lemma_parse_emit(parse_spec(text), indent);
}

/// Blank and whitespace-only lines never produce entries and never close or
/// extend a list: inserting one anywhere leaves the parse unchanged.
pub proof fn lemma_blank_line_ignored(
    st: ParseState,
    a: Seq<Seq<char>>,
    blank: Seq<char>,
    b: Seq<Seq<char>>,
)
    requires
        trim(blank).len() == 0,
    ensures
        run_lines(st, a + seq![blank] + b) == run_lines(st, a + b),
{
    assert(a + seq![blank] + b =~= a + (seq![blank] + b));
    lemma_run_lines_append(st, a, seq![blank] + b);
    lemma_run_lines_append(st, a, b);
    let st2 = run_lines(st, a);
    assert((seq![blank] + b)[0] == blank);
    assert((seq![blank] + b).subrange(1, (seq![blank] + b).len() as int) =~= b);
    assert(consume_line(st2, blank) == st2);
}

/// Emitting the empty document yields the empty text, whatever the
/// indentation width.
pub proof fn lemma_emit_empty(indent: nat)
    ensures
        emit_spec(Seq::<SpecMapping>::empty(), indent) == Seq::<char>::empty(),
{
}

/// An entry with an empty list value emits its key line and nothing else,
/// whatever the indentation width.
pub proof fn lemma_emit_empty_list(key: Seq<char>, indent: nat)
    ensures
        emit_spec(
            seq![SpecMapping { key: key, value: SpecValue::List(Seq::<Seq<char>>::empty()) }],
            indent,
        ) == key.push('\n'),
{
    let m = SpecMapping { key: key, value: SpecValue::List(Seq::<Seq<char>>::empty()) };
    let ms = seq![m];
    assert(Seq::<Seq<char>>::empty().map_values(|it: Seq<char>| item_line(indent, it))
        =~= Seq::<Seq<char>>::empty());
    assert(mapping_lines(m, indent) =~= seq![key]);
    assert(ms.subrange(1, 1) =~= Seq::<SpecMapping>::empty());
    assert(doc_lines(Seq::<SpecMapping>::empty(), indent) == Seq::<Seq<char>>::empty());
    assert(doc_lines(ms, indent) =~= seq![key]);
    assert(seq![key].subrange(1, 1) =~= Seq::<Seq<char>>::empty());
    assert(join_lines(Seq::<Seq<char>>::empty()) == Seq::<char>::empty());
    assert(join_lines(seq![key]) =~= key + seq!['\n'] + Seq::<char>::empty());
    assert(key + seq!['\n'] + Seq::<char>::empty() =~= key.push('\n'));
}

} // verus!
