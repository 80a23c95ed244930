//! Which sections hold programs, and of which type.
use vstd::prelude::*;

use crate::elf::{base_name, first_slash, kind_of, programs_of, type_of, KindModel, ProgramModel, SectionModel};

verus! {

proof fn lemma_slash(name: Seq<char>, i: nat)
    requires
        i <= name.len(),
    ensures
        i <= first_slash(name, i) <= name.len(),
        forall|k: int| i <= k < first_slash(name, i) ==> name[k] != '/',
        first_slash(name, i) < name.len() ==> name[first_slash(name, i)] == '/',
    decreases name.len() - i,
{
    if i < name.len() {
        lemma_slash(name, i + 1);
    }
}

/// What counts of a name is what stands before its first slash.
pub proof fn names_count_up_to_a_slash(base: Seq<char>, rest: Seq<char>)
    requires
        !base.contains('/'),
    ensures
        base_name(base) == base,
        base_name(base + seq!['/'] + rest) == base,
        !(kind_of(base) is Ignored) && !(kind_of(base) matches KindModel::Program(t) && t is Other) ==> kind_of(
            base + seq!['/'] + rest,
        ) == kind_of(base),
{
    let name = base + seq!['/'] + rest;
    lemma_slash(base, 0);
    lemma_slash(name, 0);
    assert(name[base.len() as int] == '/');
    let n = first_slash(name, 0);
    if n < base.len() {
        assert(name[n] == base[n]);
        assert(base.contains(base[n]));
    }
    let m = first_slash(base, 0);
    if m < base.len() {
        assert(base.contains(base[m]));
    }
    assert(base_name(name) =~= base);
    assert(base_name(base) =~= base);
}

/// A section whose name is not one of the known words is a program of its own
/// type, unless its name is empty or starts with a dot.
pub proof fn other_names(name: Seq<char>)
    ensures
        kind_of(name) is Ignored ==> name.len() == 0 || name[0] == '.',
        type_of(name) is Some <==> kind_of(name) is Program,
        kind_of(name) matches KindModel::Program(t) ==> type_of(name) == Some(t),
        name.len() > 0 && name[0] != '.' && type_of(name) is None ==> base_name(name) == "maps"@,
{
    lemma_slash(name, 0);
    reveal_strlit(".maps");
    reveal_strlit(".BTF");
    reveal_strlit(".BTF.ext");
    if name.len() > 0 && name[0] != '.' {
        let base = base_name(name);
        if base.len() > 0 {
            assert(base[0] == name[0]);
        }
    }
}

/// The programs of sections are those sections that have a name of a program
/// and contents, in their order.
pub proof fn programs_are_named_sections(list: Seq<SectionModel>, i: nat, k: int)
    ensures
        i < list.len() ==> (match list[i as int] {
            (Some(name), Some(bytes), relocations) => match type_of(name) {
                Some(prog_type) => {
                    &&& programs_of(list, i).len() == programs_of(list, i + 1).len() + 1
                    &&& programs_of(list, i)[0] == (ProgramModel { name, prog_type, bytes, relocations })
                    &&& programs_of(list, i).skip(1) == programs_of(list, i + 1)
                },
                None => programs_of(list, i) == programs_of(list, i + 1),
            },
            _ => programs_of(list, i) == programs_of(list, i + 1),
        }),
        0 <= k < programs_of(list, i).len() ==> exists|j: int|
            {
                let p = programs_of(list, i)[k];
                &&& i <= j < list.len()
                &&& (#[trigger] list[j]) == (Some(p.name), Some(p.bytes), p.relocations)
                &&& type_of(p.name) == Some(p.prog_type)
            },
    decreases list.len() - i,
{
    if i < list.len() {
        let rest = programs_of(list, i + 1);
        let all = programs_of(list, i);
        if all.len() == rest.len() + 1 {
            assert(all.skip(1) =~= rest);
            if 0 < k < all.len() {
                programs_are_named_sections(list, i + 1, k - 1);
                assert(all[k] == rest[k - 1]);
            } else if k == 0 {
                assert(list[i as int] == (Some(all[0].name), Some(all[0].bytes), all[0].relocations));
            }
        } else if 0 <= k < all.len() {
            programs_are_named_sections(list, i + 1, k);
        }
    }
}

} // verus!
