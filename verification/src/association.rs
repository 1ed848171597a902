use crate::context::{Mapping, Schema};
use vstd::prelude::*;
use vstd::string::StrSliceExecFns;

verus! {

/// `s` without the run of `c` at its end.
pub open spec fn spec_trim_end(s: Seq<char>, c: char) -> Seq<char>
    decreases s.len(),
{
    if s.len() > 0 && s.last() == c {
        spec_trim_end(s.drop_last(), c)
    } else {
        s
    }
}

/// Position of the last `c` in `s`, or -1 where `s` holds none.
pub open spec fn spec_last_index(s: Seq<char>, c: char) -> int
    decreases s.len(),
{
    if s.len() == 0 {
        -1
    } else if s.last() == c {
        s.len() - 1
    } else {
        spec_last_index(s.drop_last(), c)
    }
}

/// The relation that a field path reaches through: what stands before the
/// last dot, without the question marks at its end. A path without a dot
/// names a field of the entity itself and needs no relation.
pub open spec fn spec_association_of(path: Seq<char>) -> Option<Seq<char>> {
    let dot = spec_last_index(path, '.');
    if dot < 0 {
        None
    } else {
        Some(spec_trim_end(path.take(dot), '?'))
    }
}

/// The relation that a mapping needs expanded, if any.
pub open spec fn spec_mapping_association(mapping: Mapping) -> Option<Seq<char>> {
    match mapping {
        Mapping::ByPath(by_path) => spec_association_of(by_path.entity_path@),
        Mapping::ByScript(_) => None,
    }
}

/// Some entry of `list` reads `t`.
pub open spec fn has_text(list: Seq<String>, t: Seq<char>) -> bool {
    exists|i: int| 0 <= i < list.len() && (#[trigger] list[i])@ == t
}

/// Some mapping needs the relation `t`.
pub open spec fn is_derived(mappings: Seq<Mapping>, t: Seq<char>) -> bool {
    exists|j: int|
        0 <= j < mappings.len() && spec_mapping_association(#[trigger] mappings[j]) == Some(t)
}

/// No two entries read the same.
pub open spec fn distinct_texts(list: Seq<String>) -> bool {
    forall|i: int, j: int| 0 <= i < j < list.len() ==> list[i]@ != list[j]@
}

/// Removes every `c` from the end of `s`.
pub fn trim_end(s: &str, c: char) -> (trimmed: String)
    ensures
        trimmed@ == spec_trim_end(s@, c),
{
    let mut end: usize = s.unicode_len();
    proof {
        assert(s@.take(end as int) =~= s@);
    }
    while end > 0 && s.get_char(end - 1) == c
        invariant
            end <= s@.len(),
            spec_trim_end(s@.take(end as int), c) == spec_trim_end(s@, c),
        decreases end,
    {
        proof {
            assert(s@.take(end as int).drop_last() =~= s@.take(end - 1));
        }
        end = end - 1;
    }
    proof {
        assert(s@.subrange(0, end as int) =~= s@.take(end as int));
    }
    s.substring_char(0, end).to_owned()
}

/// The relation that a field path reaches through, if it has one.
pub fn association_of(entity_path: &str) -> (association: Option<String>)
    ensures
        match association {
            Some(name) => spec_association_of(entity_path@) == Some(name@),
            None => spec_association_of(entity_path@) is None,
        },
{
    let mut end: usize = entity_path.unicode_len();
    proof {
        assert(entity_path@.take(end as int) =~= entity_path@);
    }
    while end > 0 && entity_path.get_char(end - 1) != '.'
        invariant
            end <= entity_path@.len(),
            spec_last_index(entity_path@.take(end as int), '.') == spec_last_index(
                entity_path@,
                '.',
            ),
        decreases end,
    {
        proof {
            assert(entity_path@.take(end as int).drop_last() =~= entity_path@.take(end - 1));
        }
        end = end - 1;
    }
    if end == 0 {
        None
    } else {
        proof {
            assert(entity_path@.subrange(0, end - 1) =~= entity_path@.take(end - 1));
        }
        Some(trim_end(entity_path.substring_char(0, end - 1), '?'))
    }
}

fn contains_text(list: &Vec<String>, s: &String) -> (found: bool)
    ensures
        found == has_text(list@, s@),
{
    let n: usize = list.len();
    let mut i: usize = 0;
    while i < n
        invariant
            n == list@.len(),
            i <= n,
            forall|j: int| 0 <= j < i ==> (#[trigger] list@[j])@ != s@,
        decreases n - i,
    {
        if list[i] == *s {
            return true;
        }
        i = i + 1;
    }
    false
}

proof fn lemma_has_text_push(list: Seq<String>, s: String)
    ensures
        forall|t: Seq<char>| #[trigger] has_text(list.push(s), t) <==> has_text(list, t) || s@ == t,
{
    let longer = list.push(s);
    assert forall|t: Seq<char>| #[trigger] has_text(longer, t) <==> has_text(list, t) || s@
        == t by {
        if has_text(list, t) {
            let i = choose|i: int| 0 <= i < list.len() && (#[trigger] list[i])@ == t;
            assert(longer[i]@ == t);
        }
        if s@ == t {
            assert(longer[list.len() as int]@ == t);
        }
        if has_text(longer, t) {
            let i = choose|i: int| 0 <= i < longer.len() && (#[trigger] longer[i])@ == t;
            if i < list.len() {
                assert(list[i]@ == t);
            }
        }
    }
}

proof fn lemma_is_derived_push(mappings: Seq<Mapping>, m: Mapping)
    ensures
        forall|t: Seq<char>| #[trigger]
            is_derived(mappings.push(m), t) <==> is_derived(mappings, t)
                || spec_mapping_association(m) == Some(t),
{
    let longer = mappings.push(m);
    assert forall|t: Seq<char>| #[trigger]
        is_derived(longer, t) <==> is_derived(mappings, t) || spec_mapping_association(m) == Some(
            t,
        ) by {
        if is_derived(mappings, t) {
            let j = choose|j: int|
                0 <= j < mappings.len() && spec_mapping_association(#[trigger] mappings[j]) == Some(
                    t,
                );
            assert(spec_mapping_association(longer[j]) == Some(t));
        }
        if spec_mapping_association(m) == Some(t) {
            assert(spec_mapping_association(longer[mappings.len() as int]) == Some(t));
        }
        if is_derived(longer, t) {
            let j = choose|j: int|
                0 <= j < longer.len() && spec_mapping_association(#[trigger] longer[j]) == Some(t);
            if j < mappings.len() {
                assert(spec_mapping_association(mappings[j]) == Some(t));
            }
        }
    }
}

/// Adds `s` to the list unless an entry already reads the same.
pub fn insert_unique(list: &mut Vec<String>, s: String)
    ensures
        distinct_texts(old(list)@) ==> distinct_texts(final(list)@),
        forall|t: Seq<char>| #[trigger] has_text(final(list)@, t) <==> has_text(old(list)@, t) || s@ == t,
        has_text(old(list)@, s@) ==> final(list)@ == old(list)@,
        !has_text(old(list)@, s@) ==> final(list)@ == old(list)@.push(s),
{
    if !contains_text(list, &s) {
        proof {
            lemma_has_text_push(list@, s);
        }
        list.push(s);
    }
}

/// The relations that the remote service has to expand for a schema: those
/// the schema names itself and those that its field paths reach through,
/// each once.
pub fn collect_associations(schema: &Schema) -> (associations: Vec<String>)
    ensures
        distinct_texts(associations@),
        forall|t: Seq<char>| #[trigger]
            has_text(associations@, t) <==> has_text(schema.associations@, t) || is_derived(
                schema.mappings@,
                t,
            ),
{
    let mut result: Vec<String> = Vec::new();
    let n: usize = schema.associations.len();
    let mut i: usize = 0;
    proof {
        assert(schema.associations@.take(0) =~= Seq::<String>::empty());
    }
    while i < n
        invariant
            n == schema.associations@.len(),
            i <= n,
            distinct_texts(result@),
            forall|t: Seq<char>| #[trigger]
                has_text(result@, t) <==> has_text(schema.associations@.take(i as int), t),
        decreases n - i,
    {
        proof {
            lemma_has_text_push(schema.associations@.take(i as int), schema.associations@[i as int]);
            assert(schema.associations@.take(i + 1) =~= schema.associations@.take(i as int).push(
                schema.associations@[i as int],
            ));
        }
        insert_unique(&mut result, schema.associations[i].clone());
        i = i + 1;
    }
    let m: usize = schema.mappings.len();
    let mut k: usize = 0;
    proof {
        assert(schema.associations@.take(n as int) =~= schema.associations@);
        assert(schema.mappings@.take(0) =~= Seq::<Mapping>::empty());
    }
    while k < m
        invariant
            m == schema.mappings@.len(),
            k <= m,
            distinct_texts(result@),
            forall|t: Seq<char>| #[trigger]
                has_text(result@, t) <==> has_text(schema.associations@, t) || is_derived(
                    schema.mappings@.take(k as int),
                    t,
                ),
        decreases m - k,
    {
        proof {
            lemma_is_derived_push(schema.mappings@.take(k as int), schema.mappings@[k as int]);
            assert(schema.mappings@.take(k + 1) =~= schema.mappings@.take(k as int).push(
                schema.mappings@[k as int],
            ));
        }
        match &schema.mappings[k] {
            Mapping::ByPath(by_path) => {
                match association_of(by_path.entity_path.as_str()) {
                    Some(name) => {
                        insert_unique(&mut result, name);
                    },
                    None => {},
                }
            },
            Mapping::ByScript(_) => {},
        }
        k = k + 1;
    }
    proof {
        assert(schema.mappings@.take(m as int) =~= schema.mappings@);
    }
    result
}

} // verus!
