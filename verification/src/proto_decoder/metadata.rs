use vstd::prelude::*;
use crate::text::{joined, owned};

verus! {

/// A message type of a schema: its name and the message types declared inside it.
#[derive(Debug)]
pub struct MessageShape {
    pub name: String,
    pub nested: Vec<MessageShape>,
}

/// A schema file: its package and the message types declared at its top.
#[derive(Debug)]
pub struct FileShape {
    pub package: String,
    pub messages: Vec<MessageShape>,
}

/// What a set of schema files declares: its packages and the full names of its message
/// types, each list in ascending order and without repeats.
#[derive(Debug)]
pub struct ProtoMetadata {
    pub packages: Vec<String>,
    pub messages: Vec<String>,
}

/// `a` comes before `b` in the order of strings: at the first place where they differ `a`
/// has the smaller character, or `a` ends there and `b` does not.
pub open spec fn text_lt(a: Seq<char>, b: Seq<char>) -> bool
    decreases a.len(),
{
    if b.len() == 0 {
        false
    } else if a.len() == 0 {
        true
    } else if a[0] != b[0] {
        (a[0] as u32) < (b[0] as u32)
    } else {
        text_lt(a.skip(1), b.skip(1))
    }
}

/// `a` is `b` or comes before it.
pub open spec fn text_le(a: Seq<char>, b: Seq<char>) -> bool {
    a == b || text_lt(a, b)
}

/// The texts of a list of strings.
pub open spec fn texts(list: Seq<String>) -> Seq<Seq<char>> {
    list.map_values(|s: String| s@)
}

/// No text of the list comes before one that stands earlier.
pub open spec fn ascending_texts(list: Seq<Seq<char>>) -> bool {
    forall|i: int, j: int| 0 <= i < j < list.len() ==> text_le(#[trigger] list[i], #[trigger] list[j])
}

/// No text stands next to an equal one.
pub open spec fn no_neighbours_equal(list: Seq<Seq<char>>) -> bool {
    forall|i: int| 0 <= i && i + 1 < list.len() ==> #[trigger] list[i] != list[i + 1]
}

/// Both lists hold the same texts.
pub open spec fn same_texts(a: Seq<Seq<char>>, b: Seq<Seq<char>>) -> bool {
    forall|t: Seq<char>| a.contains(t) <==> b.contains(t)
}

/// Calls `[String]::sort`. Trusted: the strings are brought into ascending order and none
/// is lost or added.
#[verifier::external_body]
fn sort_texts(list: &mut Vec<String>)
    ensures
        ascending_texts(texts(final(list)@)),
        texts(final(list)@).to_multiset() == texts(old(list)@).to_multiset(),
{
    list.sort();
}

/// Brings names into ascending order and drops every repeat.
pub fn sorted_unique(names: Vec<String>) -> (r: Vec<String>)
    ensures
        ascending_texts(texts(r@)),
        no_neighbours_equal(texts(r@)),
        same_texts(texts(r@), texts(names@)),
{
    let mut sorted = names;
    sort_texts(&mut sorted);
    proof {
        texts(sorted@).to_multiset_ensures();
        texts(names@).to_multiset_ensures();
        assert forall|t: Seq<char>| texts(sorted@).contains(t) <==> texts(names@).contains(t) by {
            assert(texts(sorted@).to_multiset().count(t) == texts(names@).to_multiset().count(t));
        }
    }
    let mut out: Vec<String> = Vec::new();
    let mut i: usize = 0;
    while i < sorted.len()
        invariant
            i <= sorted.len(),
            ascending_texts(texts(sorted@)),
            ascending_texts(texts(out@)),
            no_neighbours_equal(texts(out@)),
            out@.len() > 0 ==> i > 0 && out@[out@.len() - 1]@ == sorted@[i - 1]@,
            out@.len() == 0 ==> i == 0,
            forall|k: int| 0 <= k < out@.len() ==> texts(sorted@).subrange(0, i as int).contains(
                #[trigger] out@[k]@,
            ),
            forall|k: int| 0 <= k < i ==> texts(out@).contains(#[trigger] sorted@[k]@),
        decreases sorted.len() - i,
    {
        let ghost before = texts(out@);
        let fresh: bool = out.len() == 0 || !(out[out.len() - 1] == sorted[i]);
        if fresh {
            out.push(sorted[i].clone());
            proof {
                let now = texts(out@);
                assert(now =~= before.push(sorted@[i as int]@));
                assert forall|a: int, b: int| 0 <= a < b < now.len() implies text_le(
                    #[trigger] now[a],
                    #[trigger] now[b],
                ) by {
                    if b < before.len() {
                        assert(now[a] == before[a] && now[b] == before[b]);
                    } else {
                        assert(now[a] == before[a]);
                        let w = choose|w: int|
                            0 <= w < i && texts(sorted@).subrange(0, i as int)[w] == out@[a]@;
                        assert(texts(sorted@)[w] == now[a]);
                        assert(text_le(texts(sorted@)[w], texts(sorted@)[i as int]));
                    }
                }
                assert forall|k: int| 0 <= k < i + 1 implies now.contains(
                    #[trigger] sorted@[k]@,
                ) by {
                    if k < i {
                        let w = choose|w: int| 0 <= w < before.len() && before[w] == sorted@[k]@;
                        assert(now[w] == sorted@[k]@);
                    } else {
                        assert(now[before.len() as int] == sorted@[k]@);
                    }
                }
            }
        } else {
            proof {
                assert forall|k: int| 0 <= k < i + 1 implies texts(out@).contains(
                    #[trigger] sorted@[k]@,
                ) by {
                    if k == i {
                        assert(texts(out@)[out@.len() - 1] == sorted@[k]@);
                    }
                }
            }
        }
        proof {
            assert forall|k: int| 0 <= k < out@.len() implies texts(sorted@).subrange(
                0,
                i + 1,
            ).contains(#[trigger] out@[k]@) by {
                if k < before.len() {
                    let w = choose|w: int|
                        0 <= w < i && texts(sorted@).subrange(0, i as int)[w] == out@[k]@;
                    assert(texts(sorted@).subrange(0, i + 1)[w] == out@[k]@);
                } else {
                    assert(texts(sorted@).subrange(0, i + 1)[i as int] == out@[k]@);
                }
            }
        }
        i += 1;
    }
    proof {
        assert(texts(sorted@).subrange(0, sorted@.len() as int) =~= texts(sorted@));
        assert forall|t: Seq<char>| texts(out@).contains(t) <==> texts(sorted@).contains(t) by {
            if texts(out@).contains(t) {
                let k = choose|k: int| 0 <= k < texts(out@).len() && texts(out@)[k] == t;
                assert(texts(sorted@).contains(out@[k]@));
            }
            if texts(sorted@).contains(t) {
                let k = choose|k: int| 0 <= k < texts(sorted@).len() && texts(sorted@)[k] == t;
                assert(texts(out@).contains(sorted@[k]@));
            }
        }
    }
    out
}

/// A name with `lead` and a dot in front, where `lead` is not empty.
pub open spec fn led_by(lead: Seq<char>, name: Seq<char>) -> Seq<char> {
    if lead.len() > 0 {
        lead + seq!['.'] + name
    } else {
        name
    }
}

/// The full name of a message type: its package, the names of the message types around
/// it, and its own name, joined by dots.
pub open spec fn qualified(pkg: Seq<char>, prefix: Seq<char>, name: Seq<char>) -> Seq<char> {
    led_by(pkg, led_by(prefix, name))
}

/// The full names of a message type and of all message types declared inside it, outer
/// before inner, in the order of declaration. A message type without a name gives none,
/// nor do those inside it.
pub open spec fn full_names(pkg: Seq<char>, prefix: Seq<char>, shape: MessageShape) -> Seq<
    Seq<char>,
>
    decreases shape,
{
    if shape.name@.len() == 0 {
        Seq::empty()
    } else {
        seq![qualified(pkg, prefix, shape.name@)] + nested_names(
            pkg,
            led_by(prefix, shape.name@),
            shape.nested@,
            shape.nested@.len() as int,
        )
    }
}

/// The full names of the first `n` message types of a list, declared inside `prefix`.
pub open spec fn nested_names(
    pkg: Seq<char>,
    prefix: Seq<char>,
    shapes: Seq<MessageShape>,
    n: int,
) -> Seq<Seq<char>>
    decreases shapes, n,
{
    if n <= 0 || n > shapes.len() {
        Seq::empty()
    } else {
        nested_names(pkg, prefix, shapes, n - 1) + full_names(pkg, prefix, shapes[n - 1])
    }
}

/// The text of an optional prefix; empty for none.
pub open spec fn prefix_text(prefix: Option<&str>) -> Seq<char> {
    match prefix {
        Some(p) => p@,
        None => Seq::empty(),
    }
}

/// Puts `lead` and a dot in front of a name, where `lead` is not empty.
fn lead_with(lead: &str, name: &str) -> (r: String)
    ensures
        r@ == led_by(lead@, name@),
{
    if lead.unicode_len() > 0 {
        proof {
            reveal_strlit(".");
        }
        let mut out = joined(lead, ".");
        out.append(name);
        assert("."@ =~= seq!['.']);
        out
    } else {
        owned(name)
    }
}

/// Collects the full name of a message type and those of the message types declared inside
/// it, behind what `out` holds.
pub fn collect_messages_from_descriptor(
    pkg: &str,
    desc: &MessageShape,
    out: &mut Vec<String>,
    prefix: Option<&str>,
)
    ensures
        texts(final(out)@) == texts(old(out)@) + full_names(pkg@, prefix_text(prefix), *desc),
    decreases desc,
{
    if desc.name.as_str().unicode_len() == 0 {
        assert(texts(out@) + Seq::<Seq<char>>::empty() =~= texts(out@));
        return ;
    }
    let around: &str = match prefix {
        Some(p) => p,
        None => "",
    };
    proof {
        reveal_strlit("");
    }
    let inner = lead_with(around, desc.name.as_str());
    let full = lead_with(pkg, inner.as_str());
    out.push(full);
    let ghost start = texts(old(out)@);
    assert(texts(out@) =~= start + seq![qualified(pkg@, prefix_text(prefix), desc.name@)]);
    let mut i: usize = 0;
    assert(nested_names(pkg@, inner@, desc.nested@, 0) =~= Seq::<Seq<char>>::empty());
    while i < desc.nested.len()
        invariant
            i <= desc.nested.len(),
            texts(out@) == start + (seq![qualified(pkg@, prefix_text(prefix), desc.name@)]
                + nested_names(pkg@, inner@, desc.nested@, i as int)),
        decreases desc.nested.len() - i,
    {
        let ghost before = texts(out@);
        collect_messages_from_descriptor(pkg, &desc.nested[i], out, Some(inner.as_str()));
        assert(texts(out@) =~= start + (seq![qualified(pkg@, prefix_text(prefix), desc.name@)]
            + nested_names(pkg@, inner@, desc.nested@, i + 1)));
        i += 1;
    }
}

/// The full names of the message types of the first `n` files.
pub open spec fn file_names(files: Seq<FileShape>, n: int) -> Seq<Seq<char>>
    decreases n,
{
    if n <= 0 || n > files.len() {
        Seq::empty()
    } else {
        file_names(files, n - 1) + nested_names(
            files[n - 1].package@,
            Seq::empty(),
            files[n - 1].messages@,
            files[n - 1].messages@.len() as int,
        )
    }
}

/// The packages of the first `n` files, where they name one.
pub open spec fn file_packages(files: Seq<FileShape>, n: int) -> Seq<Seq<char>>
    decreases n,
{
    if n <= 0 || n > files.len() {
        Seq::empty()
    } else if files[n - 1].package@.len() > 0 {
        file_packages(files, n - 1).push(files[n - 1].package@)
    } else {
        file_packages(files, n - 1)
    }
}

/// Collects the package of a file, if it names one, and the full names of its message
/// types.
pub fn extract_from_file_descriptor(
    fd: &FileShape,
    packages: &mut Vec<String>,
    messages: &mut Vec<String>,
)
    ensures
        texts(final(packages)@) == (if fd.package@.len() > 0 {
            texts(old(packages)@).push(fd.package@)
        } else {
            texts(old(packages)@)
        }),
        texts(final(messages)@) == texts(old(messages)@) + nested_names(
            fd.package@,
            Seq::empty(),
            fd.messages@,
            fd.messages@.len() as int,
        ),
{
    if fd.package.as_str().unicode_len() > 0 {
        packages.push(fd.package.clone());
        assert(texts(packages@) =~= texts(old(packages)@).push(fd.package@));
    }
    let ghost start = texts(messages@);
    let mut i: usize = 0;
    assert(start + nested_names(fd.package@, Seq::empty(), fd.messages@, 0) =~= start);
    while i < fd.messages.len()
        invariant
            i <= fd.messages.len(),
            texts(messages@) == start + nested_names(
                fd.package@,
                Seq::empty(),
                fd.messages@,
                i as int,
            ),
        decreases fd.messages.len() - i,
    {
        collect_messages_from_descriptor(fd.package.as_str(), &fd.messages[i], messages, None);
        assert(texts(messages@) =~= start + nested_names(
            fd.package@,
            Seq::empty(),
            fd.messages@,
            i + 1,
        ));
        i += 1;
    }
}

/// Lists what a set of schema files declares: its packages and the full names of its
/// message types, each list in ascending order and without repeats.
pub fn proto_metadata(files: &Vec<FileShape>) -> (r: ProtoMetadata)
    ensures
        ascending_texts(texts(r.packages@)),
        no_neighbours_equal(texts(r.packages@)),
        same_texts(texts(r.packages@), file_packages(files@, files@.len() as int)),
        ascending_texts(texts(r.messages@)),
        no_neighbours_equal(texts(r.messages@)),
        same_texts(texts(r.messages@), file_names(files@, files@.len() as int)),
{
    let mut packages: Vec<String> = Vec::new();
    let mut messages: Vec<String> = Vec::new();
    let mut i: usize = 0;
    assert(texts(packages@) =~= file_packages(files@, 0));
    assert(texts(messages@) =~= file_names(files@, 0));
    while i < files.len()
        invariant
            i <= files.len(),
            texts(packages@) == file_packages(files@, i as int),
            texts(messages@) == file_names(files@, i as int),
        decreases files.len() - i,
    {
        extract_from_file_descriptor(&files[i], &mut packages, &mut messages);
        i += 1;
    }
    ProtoMetadata { packages: sorted_unique(packages), messages: sorted_unique(messages) }
}

} // verus!
