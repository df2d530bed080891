//! The emitter: serializes a document back to text, together with its
//! mathematical model.

use vstd::prelude::*;
use vstd::slice::slice_index_get;
use vstd::string::StringExecFns;

use crate::text::spaces;
use crate::{Mapping, SpecMapping, SpecValue, Value};

verus! {

/// The line a string entry emits: `key: value`.
pub open spec fn string_line(key: Seq<char>, value: Seq<char>) -> Seq<char> {
    key + seq![':', ' '] + value
}

/// The line one list item emits: the indentation, the `- ` marker, the item.
pub open spec fn item_line(indent: nat, item: Seq<char>) -> Seq<char> {
    spaces(indent) + seq!['-', ' '] + item
}

/// The lines one entry emits: one `key: value` line for a string entry; the
/// bare key line followed by one line per item for a list entry (only the
/// key line when the list is empty).
pub open spec fn mapping_lines(m: SpecMapping, indent: nat) -> Seq<Seq<char>> {
    match m.value {
        SpecValue::String(v) => seq![string_line(m.key, v)],
        SpecValue::List(items) => seq![m.key] + items.map_values(|it: Seq<char>| item_line(indent, it)),
    }
}

/// The lines a whole document emits, entry by entry, in order.
pub open spec fn doc_lines(ms: Seq<SpecMapping>, indent: nat) -> Seq<Seq<char>>
    decreases ms.len(),
{
    if ms.len() == 0 {
        Seq::<Seq<char>>::empty()
    } else {
        mapping_lines(ms[0], indent) + doc_lines(ms.subrange(1, ms.len() as int), indent)
    }
}

/// Lines joined into text, each line followed by one `'\n'` terminator.
pub open spec fn join_lines(lines: Seq<Seq<char>>) -> Seq<char>
    decreases lines.len(),
{
    if lines.len() == 0 {
        Seq::<char>::empty()
    } else {
        lines[0] + seq!['\n'] + join_lines(lines.subrange(1, lines.len() as int))
    }
}

/// The text a document emits.
pub open spec fn emit_spec(ms: Seq<SpecMapping>, indent: nat) -> Seq<char> {
    join_lines(doc_lines(ms, indent))
}

/// Joining concatenated line sequences is joining the one, then the other.
pub proof fn lemma_join_lines_append(a: Seq<Seq<char>>, b: Seq<Seq<char>>)
    ensures
        join_lines(a + b) == join_lines(a) + join_lines(b),
    decreases a.len(),
{
    if a.len() == 0 {
        assert(a + b =~= b);
        assert(join_lines(a) + join_lines(b) =~= join_lines(b));
    } else {
        assert((a + b)[0] == a[0]);
        assert((a + b).subrange(1, (a + b).len() as int) =~= a.subrange(1, a.len() as int) + b);
        lemma_join_lines_append(a.subrange(1, a.len() as int), b);
        assert(a[0] + seq!['\n'] + (join_lines(a.subrange(1, a.len() as int)) + join_lines(b))
            =~= (a[0] + seq!['\n'] + join_lines(a.subrange(1, a.len() as int))) + join_lines(b));
    }
}

/// The lines of a document extended by one entry.
pub proof fn lemma_doc_lines_push(ms: Seq<SpecMapping>, m: SpecMapping, indent: nat)
    ensures
        doc_lines(ms.push(m), indent) == doc_lines(ms, indent) + mapping_lines(m, indent),
    decreases ms.len(),
{
    if ms.len() == 0 {
        assert(ms.push(m)[0] == m);
        assert(ms.push(m).subrange(1, 1) =~= Seq::<SpecMapping>::empty());
        assert(doc_lines(Seq::<SpecMapping>::empty(), indent) == Seq::<Seq<char>>::empty());
        assert(mapping_lines(m, indent) + Seq::<Seq<char>>::empty() =~= mapping_lines(m, indent));
        assert(doc_lines(ms.push(m), indent) =~= mapping_lines(m, indent));
        assert(doc_lines(ms, indent) + mapping_lines(m, indent) =~= mapping_lines(m, indent));
    } else {
        assert(ms.push(m)[0] == ms[0]);
        assert(ms.push(m).subrange(1, ms.len() + 1 as int) =~= ms.subrange(
            1,
            ms.len() as int,
        ).push(m));
        lemma_doc_lines_push(ms.subrange(1, ms.len() as int), m, indent);
        assert(mapping_lines(ms[0], indent) + (doc_lines(ms.subrange(1, ms.len() as int), indent)
            + mapping_lines(m, indent)) =~= (mapping_lines(ms[0], indent) + doc_lines(
            ms.subrange(1, ms.len() as int),
            indent,
        )) + mapping_lines(m, indent));
    }
}

/// Serializes documents to text with a fixed indentation width for list
/// items.
pub struct Emitter {
    indent_size: u8,
}

impl Emitter {
    /// An emitter that prefixes each list-item line with `indent_size`
    /// spaces.
    pub fn new(indent_size: u8) -> (e: Emitter)
        ensures
            e.indent() == indent_size as nat,
    {
        Emitter { indent_size }
    }

    /// The indentation width this emitter was built with.
    pub closed spec fn indent(&self) -> nat {
        self.indent_size as nat
    }

    /// Appends the indentation, `indent_size` spaces, to `out`.
    fn push_indent(&self, out: &mut String)
        ensures
            final(out)@ == old(out)@ + spaces(self.indent()),
    {
        let ghost base = out@;
        let mut k: u8 = 0;
        while k < self.indent_size
            invariant
                k <= self.indent_size,
                out@ == base + spaces(k as nat),
            decreases self.indent_size - k,
        {
            out.append(" ");
            proof {
                reveal_strlit(" ");
                assert(" "@ =~= seq![' ']);
                assert(base + spaces(k as nat) + seq![' '] =~= base + spaces((k + 1) as nat));
            }
            k = k + 1;
        }
    }

    /// Appends the lines of one entry to `out`.
    fn push_mapping(&self, out: &mut String, m: &Mapping)
        ensures
            final(out)@ == old(out)@ + join_lines(mapping_lines(m@, self.indent())),
    {
        let ghost base = out@;
        out.append(m.key.as_str());
        match &m.value {
            Value::String(v) => {
                out.append(": ");
                out.append(v.as_str());
                out.append("\n");
                proof {
                    reveal_strlit(": ");
                    reveal_strlit("\n");
                    assert(": "@ =~= seq![':', ' ']);
                    assert("\n"@ =~= seq!['\n']);
                    let lines = mapping_lines(m@, self.indent());
                    assert(lines.subrange(1, lines.len() as int)
                        =~= Seq::<Seq<char>>::empty());
                    assert(join_lines(Seq::<Seq<char>>::empty()) == Seq::<char>::empty());
                    assert(join_lines(lines) =~= string_line(m.key@, v@) + seq!['\n']);
                    assert(out@ =~= base + join_lines(lines));
                }
            },
            Value::List(items) => {
                out.append("\n");
                proof {
                    reveal_strlit("\n");
                    assert("\n"@ =~= seq!['\n']);
                }
                let ghost mapped = items.deep_view().map_values(
                    |it: Seq<char>| item_line(self.indent(), it),
                );
                proof {
                    assert(out@ =~= base + m.key@ + seq!['\n']);
                    assert(mapped.subrange(0, 0) =~= Seq::<Seq<char>>::empty());
                }
                let n = items.len();
                let mut j: usize = 0;
                while j < n
                    invariant
                        j <= n,
                        n == items.len(),
                        mapped == items.deep_view().map_values(
                            |it: Seq<char>| item_line(self.indent(), it),
                        ),
                        out@ == base + m.key@ + seq!['\n'] + join_lines(mapped.subrange(0, j as int)),
                    decreases n - j,
                {
                    let ghost before = out@;
                    self.push_indent(out);
                    out.append("- ");
                    out.append(slice_index_get(items.as_slice(), j).as_str());
                    out.append("\n");
                    proof {
                        reveal_strlit("- ");
                        reveal_strlit("\n");
                        assert("- "@ =~= seq!['-', ' ']);
                        assert("\n"@ =~= seq!['\n']);
                        assert(out@ =~= before + item_line(self.indent(), items.deep_view()[j as int])
                            + seq!['\n']);
                        assert(mapped.subrange(0, j + 1) =~= mapped.subrange(0, j as int).push(
                            mapped[j as int],
                        ));
                        lemma_join_lines_push(mapped.subrange(0, j as int), mapped[j as int]);
                        assert(out@ =~= base + m.key@ + seq!['\n'] + join_lines(
                            mapped.subrange(0, j + 1),
                        ));
                    }
                    j = j + 1;
                }
                proof {
                    assert(mapped.subrange(0, n as int) =~= mapped);
                    let lines = mapping_lines(m@, self.indent());
                    assert(lines =~= seq![m.key@] + mapped);
                    lemma_join_lines_append(seq![m.key@], mapped);
                    assert(join_lines(seq![m.key@]) =~= m.key@ + seq!['\n']) by {
                        assert(seq![m.key@].subrange(1, 1) =~= Seq::<Seq<char>>::empty());
                        assert(join_lines(Seq::<Seq<char>>::empty()) == Seq::<char>::empty());
                    }
                    assert(out@ =~= base + join_lines(lines));
                }
            },
        }
    }

    /// Serializes the entries in order: `key: value` for a string entry; the
    /// key line and one marked, indented line per item for a list entry.
    pub fn emit(&self, mappings: &[Mapping]) -> (r: String)
        ensures
            r@ == emit_spec(mappings.deep_view(), self.indent()),
    {
        let ghost ms = mappings.deep_view();
        let mut out = String::new();
        proof {
            assert(ms.subrange(0, 0) =~= Seq::<SpecMapping>::empty());
            assert(out@ =~= join_lines(doc_lines(ms.subrange(0, 0), self.indent())));
        }
        let n = mappings.len();
        let mut i: usize = 0;
        while i < n
            invariant
                i <= n,
                n == mappings@.len(),
                ms == mappings.deep_view(),
                out@ == join_lines(doc_lines(ms.subrange(0, i as int), self.indent())),
            decreases n - i,
        {
            let m = slice_index_get(mappings, i);
            self.push_mapping(&mut out, m);
            proof {
                assert(m@ == ms[i as int]);
                assert(ms.subrange(0, i + 1) =~= ms.subrange(0, i as int).push(ms[i as int]));
                lemma_doc_lines_push(ms.subrange(0, i as int), ms[i as int], self.indent());
                lemma_join_lines_append(
                    doc_lines(ms.subrange(0, i as int), self.indent()),
                    mapping_lines(ms[i as int], self.indent()),
                );
            }
            i = i + 1;
        }
        proof {
            assert(ms.subrange(0, n as int) =~= ms);
        }
        out
    }
}

/// Joining lines extended by one line.
proof fn lemma_join_lines_push(lines: Seq<Seq<char>>, l: Seq<char>)
    ensures
        join_lines(lines.push(l)) == join_lines(lines) + l + seq!['\n'],
{
    assert(lines.push(l) =~= lines + seq![l]);
    lemma_join_lines_append(lines, seq![l]);
    assert(seq![l].subrange(1, 1) =~= Seq::<Seq<char>>::empty());
    assert(join_lines(Seq::<Seq<char>>::empty()) == Seq::<char>::empty());
    assert(join_lines(seq![l]) =~= l + seq!['\n']);
    assert(join_lines(lines) + (l + seq!['\n']) =~= join_lines(lines) + l + seq!['\n']);
}

} // verus!
