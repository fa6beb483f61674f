//! Extended attributes by name.

use vstd::prelude::*;

use crate::bytes;
use crate::text;

verus! {

/// The value of an attribute. Of two with one name the later one counts.
pub open spec fn lookup(list: Seq<(String, Vec<u8>)>, name: Seq<char>) -> Option<Seq<u8>>
    decreases list.len(),
{
    if list.len() == 0 {
        None
    } else if list.last().0@ == name {
        Some(list.last().1@)
    } else {
        lookup(list.drop_last(), name)
    }
}

/// The attributes by name.
pub open spec fn as_map(list: Seq<(String, Vec<u8>)>) -> Map<Seq<char>, Seq<u8>> {
    Map::new(|name: Seq<char>| lookup(list, name) is Some, |name: Seq<char>| lookup(list, name)->0)
}

/// True when the names are in their order, none twice.
pub open spec fn is_ordered(list: Seq<(String, Vec<u8>)>) -> bool {
    forall|i: int, j: int|
        0 <= i < j < list.len() ==> text::precedes(
            (#[trigger] list[i]).0@,
            (#[trigger] list[j]).0@,
        )
}

proof fn lemma_lookup(list: Seq<(String, Vec<u8>)>, name: Seq<char>)
    requires
        is_ordered(list),
    ensures
        forall|i: int|
            0 <= i < list.len() && (#[trigger] list[i]).0@ == name ==> lookup(list, name) == Some(
                list[i].1@,
            ),
        (forall|i: int| 0 <= i < list.len() ==> (#[trigger] list[i]).0@ != name) ==> lookup(
            list,
            name,
        ) is None,
    decreases list.len(),
{
    if list.len() > 0 {
        let rest = list.drop_last();
        assert forall|i: int, j: int| 0 <= i < j < rest.len() implies text::precedes(
            (#[trigger] rest[i]).0@,
            (#[trigger] rest[j]).0@,
        ) by {
            assert(text::precedes(list[i].0@, list[j].0@));
        }
        lemma_lookup(rest, name);
        assert forall|i: int| 0 <= i < list.len() && (#[trigger] list[i]).0@ == name implies lookup(
            list,
            name,
        ) == Some(list[i].1@) by {
            if i < rest.len() {
                assert(rest[i] == list[i]);
                text::lemma_precedes_total(list[i].0@, list.last().0@);
                assert(text::precedes(list[i].0@, list[list.len() - 1].0@));
            }
        }
        if forall|i: int| 0 <= i < list.len() ==> (#[trigger] list[i]).0@ != name {
            assert forall|i: int| 0 <= i < rest.len() implies (#[trigger] rest[i]).0@ != name by {
                assert(list[i] == rest[i]);
            }
            assert(list[list.len() - 1].0@ != name);
        }
    }
}

/// Where a name stands, or would stand.
fn place(list: &Vec<(String, Vec<u8>)>, name: &str) -> (at: (usize, bool))
    requires
        is_ordered(list@),
    ensures
        at.0 <= list@.len(),
        at.1 ==> at.0 < list@.len() && list@[at.0 as int].0@ == name@,
        !at.1 ==> forall|i: int| 0 <= i < list@.len() ==> (#[trigger] list@[i]).0@ != name@,
        !at.1 ==> forall|i: int| 0 <= i < at.0 ==> text::precedes((#[trigger] list@[i]).0@, name@),
        !at.1 ==> forall|i: int|
            at.0 <= i < list@.len() ==> text::precedes(name@, (#[trigger] list@[i]).0@),
{
    let wanted = text::chars_of(name);
    let mut at: usize = 0;
    while at < list.len()
        invariant
            at <= list@.len(),
            wanted@ == name@,
            is_ordered(list@),
            forall|i: int| 0 <= i < at ==> text::precedes((#[trigger] list@[i]).0@, name@),
        decreases list@.len() - at,
    {
        let here = text::chars_of(list[at].0.as_str());
        if text::same_chars(here.as_slice(), wanted.as_slice()) {
            return (at, true);
        }
        if !text::comes_before(here.as_slice(), wanted.as_slice()) {
            proof {
                text::lemma_precedes_total(list@[at as int].0@, name@);
                assert forall|i: int| at <= i < list@.len() implies text::precedes(
                    name@,
                    (#[trigger] list@[i]).0@,
                ) by {
                    if i > at {
                        assert(text::precedes(list@[at as int].0@, list@[i].0@));
                        text::lemma_precedes_chain(name@, list@[at as int].0@, list@[i].0@);
                    }
                }
                assert forall|i: int| 0 <= i < list@.len() implies (#[trigger] list@[i]).0@
                    != name@ by {
                    text::lemma_precedes_total(name@, name@);
                }
            }
            return (at, false);
        }
        at += 1;
    }
    proof {
        assert forall|i: int| 0 <= i < list@.len() implies (#[trigger] list@[i]).0@ != name@ by {
            text::lemma_precedes_total(name@, name@);
        }
    }
    (at, false)
}

/// The index of an attribute.
pub fn find(list: &Vec<(String, Vec<u8>)>, name: &str) -> (found: Option<usize>)
    requires
        is_ordered(list@),
    ensures
        match found {
            Some(i) => i < list@.len() && list@[i as int].0@ == name@ && as_map(
                list@,
            ).contains_key(name@) && as_map(list@)[name@] == list@[i as int].1@,
            None => !as_map(list@).contains_key(name@),
        },
{
    let (at, known) = place(list, name);
    proof {
        lemma_lookup(list@, name@);
    }
    if known {
        Some(at)
    } else {
        None
    }
}

/// Gives an attribute a value, be it new or known.
pub fn set(list: &mut Vec<(String, Vec<u8>)>, name: &str, value: Vec<u8>)
    requires
        is_ordered(old(list)@),
    ensures
        is_ordered(final(list)@),
        as_map(final(list)@) == as_map(old(list)@).insert(name@, value@),
{
    let ghost before = list@;
    let ghost stored = value@;
    let (at, known) = place(list, name);
    let owned = text::string_of(text::chars_of(name).as_slice());
    if known {
        list[at] = (owned, value);
        assert forall|i: int, j: int| 0 <= i < j < list@.len() implies text::precedes(
            (#[trigger] list@[i]).0@,
            (#[trigger] list@[j]).0@,
        ) by {
            assert(text::precedes(before[i].0@, before[j].0@));
        }
    } else {
        list.insert(at, (owned, value));
        assert forall|i: int, j: int| 0 <= i < j < list@.len() implies text::precedes(
            (#[trigger] list@[i]).0@,
            (#[trigger] list@[j]).0@,
        ) by {
            let bi = if i < at {
                i
            } else {
                i - 1
            };
            let bj = if j < at {
                j
            } else {
                j - 1
            };
            if i == at {
                assert(text::precedes(name@, before[bj].0@));
            } else if j == at {
                assert(text::precedes(before[bi].0@, name@));
            } else {
                assert(text::precedes(before[bi].0@, before[bj].0@));
            }
        }
    }
    proof {
        let after = list@;
        assert forall|k: Seq<char>| lookup(after, k) == (if k == name@ {
            Some(stored)
        } else {
            lookup(before, k)
        }) by {
            lemma_lookup(before, k);
            lemma_lookup(after, k);
            assert(after[at as int].0@ == name@);
            if k != name@ {
                if exists|i: int| 0 <= i < before.len() && (#[trigger] before[i]).0@ == k {
                    let i = choose|i: int| 0 <= i < before.len() && (#[trigger] before[i]).0@ == k;
                    let j = if known || i < at {
                        i
                    } else {
                        i + 1
                    };
                    assert(after[j] == before[i]);
                } else {
                    assert forall|j: int| 0 <= j < after.len() implies (#[trigger] after[j]).0@
                        != k by {
                        if j != at {
                            let i = if known || j < at {
                                j
                            } else {
                                j - 1
                            };
                            assert(after[j] == before[i]);
                        }
                    }
                }
            }
        }
        assert(as_map(after) =~= as_map(before).insert(name@, stored));
    }
}

/// Removes an attribute, where it is known.
pub fn unset(list: &mut Vec<(String, Vec<u8>)>, name: &str)
    requires
        is_ordered(old(list)@),
    ensures
        is_ordered(final(list)@),
        as_map(final(list)@) == as_map(old(list)@).remove(name@),
{
    let ghost before = list@;
    let (at, known) = place(list, name);
    if !known {
        proof {
            lemma_lookup(before, name@);
            assert(as_map(before) =~= as_map(before).remove(name@));
        }
        return ;
    }
    list.remove(at);
    proof {
        let after = list@;
        assert forall|i: int, j: int| 0 <= i < j < after.len() implies text::precedes(
            (#[trigger] after[i]).0@,
            (#[trigger] after[j]).0@,
        ) by {
            let bi = if i < at {
                i
            } else {
                i + 1
            };
            let bj = if j < at {
                j
            } else {
                j + 1
            };
            assert(text::precedes(before[bi].0@, before[bj].0@));
        }
        assert forall|k: Seq<char>| lookup(after, k) == (if k == name@ {
            None
        } else {
            lookup(before, k)
        }) by {
            lemma_lookup(before, k);
            lemma_lookup(after, k);
            if k == name@ {
                assert forall|j: int| 0 <= j < after.len() implies (#[trigger] after[j]).0@ != k by {
                    text::lemma_precedes_total(k, k);
                    if j < at {
                        assert(text::precedes(before[j].0@, before[at as int].0@));
                    } else {
                        assert(text::precedes(before[at as int].0@, before[j + 1].0@));
                    }
                }
            } else if exists|i: int| 0 <= i < before.len() && (#[trigger] before[i]).0@ == k {
                let i = choose|i: int| 0 <= i < before.len() && (#[trigger] before[i]).0@ == k;
                let j = if i < at {
                    i
                } else {
                    i - 1
                };
                assert(after[j] == before[i]);
            } else {
                assert forall|j: int| 0 <= j < after.len() implies (#[trigger] after[j]).0@ != k by {
                    let i = if j < at {
                        j
                    } else {
                        j + 1
                    };
                    assert(after[j] == before[i]);
                }
            }
        }
        assert(as_map(after) =~= as_map(before).remove(name@));
    }
}

/// The same attributes in the order of their names.
pub fn ordered(list: &Vec<(String, Vec<u8>)>) -> (result: Vec<(String, Vec<u8>)>)
    ensures
        is_ordered(result@),
        as_map(result@) == as_map(list@),
{
    let mut result: Vec<(String, Vec<u8>)> = Vec::new();
    let mut n: usize = 0;
    assert(as_map(result@) =~= as_map(list@.take(0)));
    while n < list.len()
        invariant
            n <= list@.len(),
            is_ordered(result@),
            as_map(result@) == as_map(list@.take(n as int)),
        decreases list@.len() - n,
    {
        let value = bytes::copy_range(list[n].1.as_slice(), 0, list[n].1.len());
        assert(value@ =~= list@[n as int].1@);
        set(&mut result, list[n].0.as_str(), value);
        proof {
            let next = list@.take(n + 1);
            assert(next.drop_last() =~= list@.take(n as int));
            assert(as_map(next) =~= as_map(list@.take(n as int)).insert(
                list@[n as int].0@,
                list@[n as int].1@,
            ));
        }
        n += 1;
    }
    assert(list@.take(n as int) =~= list@);
    result
}

/// A name has the value that is listed under it last, where it is listed.
pub proof fn law_last_values_count(list: Seq<(String, Vec<u8>)>, name: Seq<char>)
    ensures
        match lookup(list, name) {
            Some(value) => exists|i: int|
                {
                    &&& 0 <= i < list.len()
                    &&& (#[trigger] list[i]).0@ == name && list[i].1@ == value
                    &&& forall|k: int| i < k < list.len() ==> (#[trigger] list[k]).0@ != name
                },
            None => forall|k: int| 0 <= k < list.len() ==> (#[trigger] list[k]).0@ != name,
        },
    decreases list.len(),
{
    if list.len() > 0 {
        let less = list.drop_last();
        let last = list.len() - 1;
        if list[last].0@ != name {
            law_last_values_count(less, name);
            if let Some(value) = lookup(less, name) {
                let i = choose|i: int|
                    {
                        &&& 0 <= i < less.len()
                        &&& (#[trigger] less[i]).0@ == name && less[i].1@ == value
                        &&& forall|k: int| i < k < less.len() ==> (#[trigger] less[k]).0@ != name
                    };
                assert(list[i] == less[i]);
                assert forall|k: int| i < k < list.len() implies (#[trigger] list[k]).0@
                    != name by {
                    if k < last {
                        assert(list[k] == less[k]);
                    }
                }
            } else {
                assert forall|k: int| 0 <= k < list.len() implies (#[trigger] list[k]).0@
                    != name by {
                    if k < last {
                        assert(list[k] == less[k]);
                    }
                }
            }
        }
    }
}

} // verus!
