use vstd::prelude::*;
use crate::dataclass::{Defs, DefEntryV};
use crate::error::SchemaError;

verus! {

/// The three colours of the depth-first traversal.
#[derive(Debug, Clone, Copy, PartialEq, Eq, Structural)]
pub enum SortStatus {
    Unvisited,
    Pending,
    Done,
}

/// A dependency edge: entry `i` depends on entry `j`.
pub open spec fn edge(es: Seq<DefEntryV>, i: int, j: int) -> bool {
    es[i].deps.contains(es[j].name)
}

/// A cycle in the dependency graph, as a non-empty index path whose
/// consecutive entries are edges and whose last entry depends on the
/// first.
pub open spec fn is_cycle(es: Seq<DefEntryV>, p: Seq<int>) -> bool {
    &&& p.len() > 0
    &&& (forall|k: int| 0 <= k < p.len() ==> 0 <= #[trigger] p[k] < es.len())
    &&& (forall|k: int| 0 <= k < p.len() - 1 ==> edge(es, #[trigger] p[k], p[k + 1]))
    &&& edge(es, p.last(), p.first())
}

/// The dependency graph contains a cycle.
pub open spec fn has_cycle(es: Seq<DefEntryV>) -> bool {
    exists|p: Seq<int>| is_cycle(es, p)
}

/// Some entry carries the given name.
pub open spec fn has_entry(es: Seq<DefEntryV>, n: Seq<char>) -> bool {
    exists|k: int| 0 <= k < es.len() && es[k].name == n
}

/// Every dependency of every entry names an entry of the registry.
pub open spec fn closed(es: Seq<DefEntryV>) -> bool {
    forall|i: int, d: Seq<char>|
        0 <= i < es.len() && #[trigger] es[i].deps.contains(d) ==> has_entry(es, d)
}

/// Every name in the order is preceded by all of its dependencies.
pub open spec fn respects_deps(es: Seq<DefEntryV>, out: Seq<Seq<char>>) -> bool {
    forall|m: int, k: int, d: Seq<char>|
        #![trigger out[m], es[k].deps.contains(d)]
        0 <= m < out.len() && 0 <= k < es.len() && es[k].name == out[m]
            && es[k].deps.contains(d) ==> out.take(m).contains(d)
}

/// How many entries hold the given colour.
pub open spec fn count_status(st: Seq<SortStatus>, s: SortStatus) -> nat
    decreases st.len(),
{
    if st.len() == 0 {
        0
    } else {
        count_status(st.drop_last(), s) + (if st.last() == s {
            1nat
        } else {
            0nat
        })
    }
}

/// Recolouring one entry changes the counts by exactly that entry.
proof fn lemma_count_update(st: Seq<SortStatus>, k: int, v: SortStatus, s: SortStatus)
    requires
        0 <= k < st.len(),
    ensures
        count_status(st.update(k, v), s) == count_status(st, s) + (if v == s {
            1nat
        } else {
            0nat
        }) - (if st[k] == s {
            1nat
        } else {
            0nat
        }),
    decreases st.len(),
{
    if k == st.len() - 1 {
        assert(st.update(k, v).drop_last() =~= st.drop_last());
    } else {
        assert(st.update(k, v).drop_last() =~= st.drop_last().update(k, v));
        lemma_count_update(st.drop_last(), k, v, s);
    }
}

/// The sorter's well-formedness: one colour per registry entry, and
/// an output that lists finished entries, each once, each after all
/// of its dependencies.
pub open spec fn sorter_inv(
    es: Seq<DefEntryV>,
    st: Seq<SortStatus>,
    out: Seq<Seq<char>>,
) -> bool {
    &&& st.len() == es.len()
    &&& out.len() == count_status(st, SortStatus::Done)
    &&& (forall|m1: int, m2: int| 0 <= m1 < m2 < out.len() ==> out[m1] != out[m2])
    &&& (forall|m: int| 0 <= m < out.len() ==> has_entry(es, #[trigger] out[m]))
    &&& (forall|k: int|
        0 <= k < es.len() && #[trigger] st[k] == SortStatus::Done ==> out.contains(es[k].name))
    &&& (forall|m: int, k: int|
        #![trigger out[m], es[k].name]
        0 <= m < out.len() && 0 <= k < es.len() && es[k].name == out[m]
            ==> st[k] == SortStatus::Done)
    &&& respects_deps(es, out)
}

/// The recursion stack: exactly the pending entries, in visiting
/// order, consecutive ones joined by dependency edges.
pub open spec fn stack_inv(es: Seq<DefEntryV>, st: Seq<SortStatus>, stack: Seq<int>) -> bool {
    &&& (forall|q: int| 0 <= q < stack.len() ==> 0 <= #[trigger] stack[q] < es.len())
    &&& (forall|k: int|
        0 <= k < es.len() ==> (#[trigger] st[k] == SortStatus::Pending <==> stack.contains(k)))
    &&& (forall|q1: int, q2: int| 0 <= q1 < q2 < stack.len() ==> stack[q1] != stack[q2])
    &&& (forall|q: int| 0 <= q < stack.len() - 1 ==> edge(es, #[trigger] stack[q], stack[q + 1]))
}

/// Finds the registry entry carrying a name.
fn find_entry(defs: &Defs, name: &str) -> (r: Option<usize>)
    ensures
        r is Some ==> (r->0 as int) < defs@.entries.len()
            && defs@.entries[r->0 as int].name == name@,
        r is None ==> !has_entry(defs@.entries, name@),
{
    let mut i: usize = 0;
    #[verifier::loop_isolation(false)]
    while i < defs.entries.len()
        invariant
            i <= defs.entries.len(),
            forall|k: int| 0 <= k < i ==> defs@.entries[k].name != name@,
        decreases defs.entries.len() - i,
    {
        if crate::strutil::str_eq(defs.entries[i].name.as_str(), name) {
            proof {
                assert(defs@.entries[i as int].name == name@);
            }
            return Some(i);
        }
        i = i + 1;
    }
    proof {
        if has_entry(defs@.entries, name@) {
            let k = choose|k: int|
                0 <= k < defs@.entries.len() && defs@.entries[k].name == name@;
            assert(defs@.entries[k].name != name@);
        }
    }
    None
}

/// The state of one depth-first topological sort over a registry.
pub struct DefsSorter {
    statuses: Vec<SortStatus>,
    output: Vec<String>,
}

impl DefsSorter {
    /// Visits one entry: a finished entry is a no-op, an entry on the
    /// stack closes a cycle, and a fresh entry is finished after all
    /// of its dependencies and appended to the output.
    #[verifier::rlimit(60)]
    fn visit(&mut self, defs: &Defs, idx: usize, Ghost(stack): Ghost<Seq<int>>) -> (r: Result<
        (),
        SchemaError,
    >)
        requires
            defs@.wf(),
            idx < defs@.entries.len(),
            sorter_inv(defs@.entries, old(self).statuses@, old(self).output.deep_view()),
            stack_inv(defs@.entries, old(self).statuses@, stack),
            stack.len() > 0 ==> edge(defs@.entries, stack.last(), idx as int),
        ensures
            r is Ok ==> sorter_inv(
                defs@.entries,
                final(self).statuses@,
                final(self).output.deep_view(),
            ),
            r is Ok ==> stack_inv(defs@.entries, final(self).statuses@, stack),
            r is Ok ==> old(self).output@.len() <= final(self).output@.len(),
            r is Ok ==> (forall|m: int|
                0 <= m < old(self).output@.len()
                    ==> final(self).output.deep_view()[m] == old(self).output.deep_view()[m]),
            r is Ok ==> (forall|k: int|
                0 <= k < defs@.entries.len()
                    && #[trigger] old(self).statuses@[k] == SortStatus::Done
                    ==> final(self).statuses@[k] == SortStatus::Done),
            r is Ok ==> (forall|k: int|
                0 <= k < defs@.entries.len()
                    ==> ((#[trigger] final(self).statuses@[k] == SortStatus::Pending)
                        <==> old(self).statuses@[k] == SortStatus::Pending)),
            r is Ok ==> count_status(final(self).statuses@, SortStatus::Unvisited)
                <= count_status(old(self).statuses@, SortStatus::Unvisited),
            r is Ok ==> final(self).statuses@[idx as int] == SortStatus::Done,
            (forall|fuel: nat|
                fuel > count_status(old(self).statuses@, SortStatus::Unvisited)
                    ==> #[trigger] spec_visit(
                    fuel,
                    defs@.entries,
                    idx as int,
                    old(self).statuses@,
                    old(self).output.deep_view(),
                ) == (match r {
                    Ok(()) => Ok::<(Seq<SortStatus>, Seq<Seq<char>>), SchemaError>(
                        (final(self).statuses@, final(self).output.deep_view()),
                    ),
                    Err(e) => Err::<(Seq<SortStatus>, Seq<Seq<char>>), SchemaError>(e),
                })),
            r == Err::<(), SchemaError>(SchemaError::CyclicDefinitions)
                ==> has_cycle(defs@.entries),
            r == Err::<(), SchemaError>(SchemaError::DanglingReference)
                ==> !closed(defs@.entries),
            r is Ok || r == Err::<(), SchemaError>(SchemaError::CyclicDefinitions)
                || r == Err::<(), SchemaError>(SchemaError::DanglingReference),
        decreases count_status(old(self).statuses@, SortStatus::Unvisited),
    {
        let ghost es = defs@.entries;
        let status = self.statuses[idx];
        match status {
            SortStatus::Done => Ok(()),
            SortStatus::Pending => {
                proof {
                    let q = choose|q: int| 0 <= q < stack.len() && stack[q] == idx as int;
                    let p = stack.skip(q);
                    assert(p[0] == idx as int);
                    assert(forall|k: int|
                        0 <= k < p.len() ==> #[trigger] p[k] == stack[q + k]);
                    assert(p.last() == stack.last());
                    assert(is_cycle(es, p));
                }
                Err(SchemaError::CyclicDefinitions)
            },
            SortStatus::Unvisited => {
                let ghost st0 = self.statuses@;
                let ghost out0 = self.output.deep_view();
                let ghost u0 = count_status(st0, SortStatus::Unvisited);
                let ghost depsv = defs@.entries[idx as int].deps;
                self.statuses[idx] = SortStatus::Pending;
                proof {
                    lemma_count_update(st0, idx as int, SortStatus::Pending, SortStatus::Unvisited);
                    lemma_count_update(st0, idx as int, SortStatus::Pending, SortStatus::Done);
                    assert(stack_inv(es, self.statuses@, stack.push(idx as int))) by {
                        assert(forall|k: int|
                            0 <= k < es.len() && #[trigger] self.statuses@[k]
                                == SortStatus::Pending && k != idx as int
                                ==> stack.contains(k));
                        assert(forall|k: int|
                            0 <= k < es.len() && stack.push(idx as int).contains(k) && k != idx
                                as int ==> stack.contains(k) && #[trigger] self.statuses@[k]
                                == SortStatus::Pending);
                        assert(stack.push(idx as int).contains(idx as int)) by {
                            assert(stack.push(idx as int)[stack.len() as int] == idx as int);
                        }
                        assert(forall|k: int|
                            stack.contains(k) ==> #[trigger] stack.push(idx as int).contains(k))
                            by {
                            assert(forall|q: int|
                                0 <= q < stack.len()
                                    ==> stack.push(idx as int)[q] == #[trigger] stack[q]);
                        }
                    }
                    assert(sorter_inv(es, self.statuses@, self.output.deep_view()));
                }
                let ghost st1 = self.statuses@;
                let ghost stack1 = stack.push(idx as int);
                let ndeps = defs.entries[idx].deps.len();
                let mut d: usize = 0;
                proof {
                    assert(depsv.skip(0) =~= depsv);
                }
                #[verifier::loop_isolation(false)]
                while d < ndeps
                    invariant
                        d <= ndeps,
                        ndeps == es[idx as int].deps.len(),
                        (forall|fuel: nat|
                            fuel > u0 ==> #[trigger] spec_visit_deps(fuel, es, depsv, st1, out0)
                                == spec_visit_deps(
                                fuel,
                                es,
                                depsv.skip(d as int),
                                self.statuses@,
                                self.output.deep_view(),
                            )),
                        sorter_inv(es, self.statuses@, self.output.deep_view()),
                        stack_inv(es, self.statuses@, stack1),
                        count_status(self.statuses@, SortStatus::Unvisited)
                            <= count_status(st1, SortStatus::Unvisited),
                        old(self).output@.len() <= self.output@.len(),
                        (forall|m: int|
                            0 <= m < old(self).output@.len()
                                ==> self.output.deep_view()[m]
                                    == old(self).output.deep_view()[m]),
                        (forall|k: int|
                            0 <= k < es.len() && #[trigger] st0[k] == SortStatus::Done
                                ==> self.statuses@[k] == SortStatus::Done),
                        (forall|k: int|
                            0 <= k < es.len()
                                ==> ((#[trigger] self.statuses@[k] == SortStatus::Pending)
                                    <==> st1[k] == SortStatus::Pending)),
                        (forall|dd: int|
                            0 <= dd < d ==> out_has_name(
                                es,
                                self.statuses@,
                                #[trigger] es[idx as int].deps[dd],
                            )),
                    decreases ndeps - d,
                {
                    let dep_found = find_entry(defs, defs.entries[idx].deps[d].as_str());
                    proof {
                        assert(defs.entries@[idx as int]@.deps[d as int]
                            == es[idx as int].deps[d as int]);
                    }
                    match dep_found {
                        None => {
                            proof {
                                assert(es[idx as int].deps.contains(es[idx as int].deps[d as int]));
                                assert(!closed(es));
                                assert(depsv.skip(d as int).first() == depsv[d as int]);
                                assert forall|fuel: nat| fuel > u0 implies #[trigger] spec_visit(
                                    fuel,
                                    es,
                                    idx as int,
                                    st0,
                                    out0,
                                ) == Err::<(Seq<SortStatus>, Seq<Seq<char>>), SchemaError>(
                                    SchemaError::DanglingReference,
                                ) by {
                                    assert(spec_visit_deps(fuel, es, depsv, st1, out0)
                                        == spec_visit_deps(
                                        fuel,
                                        es,
                                        depsv.skip(d as int),
                                        self.statuses@,
                                        self.output.deep_view(),
                                    ));
                                }
                            }
                            return Err(SchemaError::DanglingReference);
                        },
                        Some(j) => {
                            proof {
                                assert(es[idx as int].deps.contains(es[idx as int].deps[d as int]));
                                assert(edge(es, idx as int, j as int));
                                assert(stack1.last() == idx as int);
                                assert(depsv.skip(d as int).first() == depsv[d as int]);
                                assert(has_entry(es, depsv[d as int]));
                                assert(entry_ix(es, depsv[d as int]) == j as int) by {
                                    let k = entry_ix(es, depsv[d as int]);
                                    assert(0 <= k < es.len() && es[k].name == depsv[d as int]);
                                }
                            }
                            let ghost st_d = self.statuses@;
                            let ghost out_d = self.output.deep_view();
                            let ghost u_d = count_status(st_d, SortStatus::Unvisited);
                            let sub = self.visit(defs, j, Ghost(stack1));
                            match sub {
                                Err(e) => {
                                    proof {
                                        assert forall|fuel: nat| fuel > u0 implies #[trigger]
                                            spec_visit(fuel, es, idx as int, st0, out0)
                                            == Err::<(Seq<SortStatus>, Seq<Seq<char>>), SchemaError>(
                                            e,
                                        ) by {
                                            assert(spec_visit_deps(fuel, es, depsv, st1, out0)
                                                == spec_visit_deps(
                                                fuel,
                                                es,
                                                depsv.skip(d as int),
                                                st_d,
                                                out_d,
                                            ));
                                            assert((fuel - 1) as nat > u_d);
                                            assert(spec_visit(
                                                (fuel - 1) as nat,
                                                es,
                                                j as int,
                                                st_d,
                                                out_d,
                                            ) == Err::<(Seq<SortStatus>, Seq<Seq<char>>), SchemaError>(e));
                                        }
                                    }
                                    return Err(e);
                                },
                                Ok(()) => {
                                    proof {
                                        assert(self.statuses@[j as int] == SortStatus::Done);
                                        assert(out_has_name(
                                            es,
                                            self.statuses@,
                                            es[idx as int].deps[d as int],
                                        ));
                                        assert(depsv.skip(d as int).drop_first()
                                            =~= depsv.skip(d + 1));
                                        assert forall|fuel: nat| fuel > u0 implies #[trigger]
                                            spec_visit_deps(fuel, es, depsv, st1, out0)
                                            == spec_visit_deps(
                                            fuel,
                                            es,
                                            depsv.skip(d + 1),
                                            self.statuses@,
                                            self.output.deep_view(),
                                        ) by {
                                            assert(spec_visit_deps(fuel, es, depsv, st1, out0)
                                                == spec_visit_deps(
                                                fuel,
                                                es,
                                                depsv.skip(d as int),
                                                st_d,
                                                out_d,
                                            ));
                                            assert((fuel - 1) as nat > u_d);
                                            assert(spec_visit(
                                                (fuel - 1) as nat,
                                                es,
                                                j as int,
                                                st_d,
                                                out_d,
                                            ) == Ok::<(Seq<SortStatus>, Seq<Seq<char>>), SchemaError>(
                                                (self.statuses@, self.output.deep_view()),
                                            ));
                                        }
                                    }
                                },
                            }
                        },
                    }
                    d = d + 1;
                }
                let ghost st2 = self.statuses@;
                let ghost out2 = self.output.deep_view();
                self.statuses[idx] = SortStatus::Done;
                let nm = self.entry_name(defs, idx);
                self.output.push(nm);
                proof {
                    lemma_count_update(st2, idx as int, SortStatus::Done, SortStatus::Unvisited);
                    lemma_count_update(st2, idx as int, SortStatus::Done, SortStatus::Done);
                    lemma_count_update(st2, idx as int, SortStatus::Done, SortStatus::Pending);
                    assert(self.output.deep_view() =~= out2.push(es[idx as int].name));
                    assert(out2.push(es[idx as int].name).take(out2.len() as int) =~= out2);
                    assert(sorter_inv(es, self.statuses@, self.output.deep_view())) by {
                        assert(forall|m: int|
                            0 <= m < out2.len()
                                ==> #[trigger] self.output.deep_view()[m] == out2[m]);
                        assert(self.output.deep_view().last() == es[idx as int].name);
                        assert(forall|m: int|
                            0 <= m < out2.len() ==> #[trigger] out2[m] != es[idx as int].name)
                            by {
                            assert(forall|m: int, k: int|
                                #![trigger out2[m], es[k].name]
                                0 <= m < out2.len() && 0 <= k < es.len() && es[k].name == out2[m]
                                    ==> st2[k] == SortStatus::Done);
                        }
                        assert(respects_deps(es, self.output.deep_view())) by {
                            assert(forall|m: int|
                                0 <= m < out2.len()
                                    ==> #[trigger] self.output.deep_view().take(m)
                                        =~= out2.take(m));
                            assert(self.output.deep_view().take(out2.len() as int) =~= out2);
                            assert(forall|d2: Seq<char>|
                                #[trigger] es[idx as int].deps.contains(d2)
                                    ==> out2.contains(d2)) by {
                                assert(forall|dd: int|
                                    0 <= dd < es[idx as int].deps.len()
                                        ==> out_has_name(
                                        es,
                                        st2,
                                        #[trigger] es[idx as int].deps[dd],
                                    ));
                            }
                        }
                    }
                    assert forall|fuel: nat| fuel > u0 implies #[trigger] spec_visit(
                        fuel,
                        es,
                        idx as int,
                        st0,
                        out0,
                    ) == Ok::<(Seq<SortStatus>, Seq<Seq<char>>), SchemaError>(
                        (self.statuses@, self.output.deep_view()),
                    ) by {
                        assert(depsv.skip(ndeps as int) =~= Seq::<Seq<char>>::empty());
                        assert(spec_visit_deps(fuel, es, depsv, st1, out0)
                            == Ok::<(Seq<SortStatus>, Seq<Seq<char>>), SchemaError>((st2, out2)));
                        assert(self.statuses@ =~= st2.update(idx as int, SortStatus::Done));
                        assert(self.output.deep_view() =~= out2.push(es[idx as int].name));
                    }
                    assert(stack_inv(es, self.statuses@, stack)) by {
                        assert(forall|k: int|
                            stack1.contains(k) && k != idx as int ==> #[trigger] stack.contains(k))
                            by {
                            assert(forall|q: int|
                                0 <= q < stack.len() ==> #[trigger] stack1[q] == stack[q]);
                            assert(forall|q: int|
                                0 <= q < stack1.len() && stack1[q] != idx as int
                                    ==> q < stack.len());
                        }
                        assert forall|k: int|
                            stack.contains(k) implies #[trigger] stack1.contains(k) by {
                            let q = choose|q: int| 0 <= q < stack.len() && stack[q] == k;
                            assert(stack1[q] == k);
                        }
                        assert(!stack.contains(idx as int));
                    }
                }
                Ok(())
            },
        }
    }

    /// Reads one entry's name.
    fn entry_name(&self, defs: &Defs, idx: usize) -> (r: String)
        requires
            idx < defs@.entries.len(),
        ensures
            r@ == defs@.entries[idx as int].name,
    {
        defs.entries[idx].name.clone()
    }

    /// Orders the registry so that every definition follows all the
    /// definitions it depends on, by a three-colour depth-first
    /// traversal; a cycle or a dangling dependency is an error.
    pub fn compute_order(defs: &Defs) -> (r: Result<Vec<String>, SchemaError>)
        requires
            defs@.wf(),
        ensures
            r is Ok ==> sorted_names_ok(defs@.entries, (r->Ok_0).deep_view()),
            r is Ok ==> sort_spec(defs@.entries) == Ok::<Seq<Seq<char>>, SchemaError>(
                (r->Ok_0).deep_view(),
            ),
            r is Ok ==> !has_cycle(defs@.entries) && closed(defs@.entries),
            r is Err ==> sort_spec(defs@.entries) == Err::<Seq<Seq<char>>, SchemaError>(
                r->Err_0,
            ),
            r == Err::<Vec<String>, SchemaError>(SchemaError::CyclicDefinitions)
                ==> has_cycle(defs@.entries),
            r == Err::<Vec<String>, SchemaError>(SchemaError::DanglingReference)
                ==> !closed(defs@.entries),
            r is Ok || r == Err::<Vec<String>, SchemaError>(SchemaError::CyclicDefinitions)
                || r == Err::<Vec<String>, SchemaError>(SchemaError::DanglingReference),
    {
        let ghost es = defs@.entries;
        let mut sorter = DefsSorter { statuses: Vec::new(), output: Vec::new() };
        let mut i: usize = 0;
        #[verifier::loop_isolation(false)]
        while i < defs.entries.len()
            invariant
                i <= defs.entries.len(),
                sorter.statuses@.len() == i,
                sorter.output@.len() == 0,
                forall|k: int| 0 <= k < i ==> sorter.statuses@[k] == SortStatus::Unvisited,
            decreases defs.entries.len() - i,
        {
            sorter.statuses.push(SortStatus::Unvisited);
            i = i + 1;
        }
        proof {
            lemma_all_unvisited_counts(sorter.statuses@);
            assert(sorter.output.deep_view() =~= Seq::<Seq<char>>::empty());
            assert(sorter_inv(es, sorter.statuses@, sorter.output.deep_view()));
            assert(stack_inv(es, sorter.statuses@, Seq::<int>::empty()));
            assert(sorter.statuses@ =~= unvisited_st(es.len()));
        }
        let n = defs.entries.len();
        let mut k: usize = 0;
        #[verifier::loop_isolation(false)]
        while k < n
            invariant
                k <= n,
                n == es.len(),
                sorter.statuses@.len() == es.len(),
                sorter_inv(es, sorter.statuses@, sorter.output.deep_view()),
                stack_inv(es, sorter.statuses@, Seq::<int>::empty()),
                forall|j: int| 0 <= j < k ==> sorter.statuses@[j] == SortStatus::Done,
                spec_sort_from(es, k as nat, sorter.statuses@, sorter.output.deep_view())
                    == sort_spec(es),
            decreases n - k,
        {
            let ghost st_k = sorter.statuses@;
            let ghost out_k = sorter.output.deep_view();
            proof {
                lemma_count_le_len(st_k, SortStatus::Unvisited);
            }
            let sub = sorter.visit(defs, k, Ghost(Seq::<int>::empty()));
            match sub {
                Err(e) => {
                    proof {
                        assert(spec_visit((es.len() + 1) as nat, es, k as int, st_k, out_k)
                            == Err::<(Seq<SortStatus>, Seq<Seq<char>>), SchemaError>(e));
                        assert(sort_spec(es) == Err::<Seq<Seq<char>>, SchemaError>(e));
                    }
                    return Err(e);
                },
                Ok(()) => {
                    proof {
                        assert(spec_visit((es.len() + 1) as nat, es, k as int, st_k, out_k)
                            == Ok::<(Seq<SortStatus>, Seq<Seq<char>>), SchemaError>(
                            (sorter.statuses@, sorter.output.deep_view()),
                        ));
                    }
                },
            }
            k = k + 1;
        }
        proof {
            lemma_all_done_counts(sorter.statuses@);
            assert(sorted_names_ok(es, sorter.output.deep_view()));
            assert(sort_spec(es) == Ok::<Seq<Seq<char>>, SchemaError>(
                sorter.output.deep_view(),
            ));
            lemma_order_acyclic(es, sorter.output.deep_view());
            lemma_order_closed(es, sorter.output.deep_view());
        }
        Ok(sorter.output)
    }
}

/// Some finished entry carries the given name.
pub open spec fn out_has_name(es: Seq<DefEntryV>, st: Seq<SortStatus>, n: Seq<char>) -> bool {
    exists|k: int|
        0 <= k < es.len() && #[trigger] es[k].name == n && st[k] == SortStatus::Done
}

/// A complete, duplicate-free, dependency-respecting order over the
/// registry's names.
pub open spec fn sorted_names_ok(es: Seq<DefEntryV>, out: Seq<Seq<char>>) -> bool {
    &&& out.len() == es.len()
    &&& (forall|m1: int, m2: int| 0 <= m1 < m2 < out.len() ==> out[m1] != out[m2])
    &&& (forall|m: int| 0 <= m < out.len() ==> has_entry(es, #[trigger] out[m]))
    &&& (forall|k: int| 0 <= k < es.len() ==> out.contains(#[trigger] es[k].name))
    &&& respects_deps(es, out)
}

/// A fully unvisited colouring counts no entry as done.
proof fn lemma_all_unvisited_counts(st: Seq<SortStatus>)
    requires
        forall|k: int| 0 <= k < st.len() ==> st[k] == SortStatus::Unvisited,
    ensures
        count_status(st, SortStatus::Done) == 0,
    decreases st.len(),
{
    if st.len() > 0 {
        lemma_all_unvisited_counts(st.drop_last());
    }
}

/// A fully finished colouring counts all entries as done.
proof fn lemma_all_done_counts(st: Seq<SortStatus>)
    requires
        forall|k: int| 0 <= k < st.len() ==> st[k] == SortStatus::Done,
    ensures
        count_status(st, SortStatus::Done) == st.len(),
    decreases st.len(),
{
    if st.len() > 0 {
        lemma_all_done_counts(st.drop_last());
    }
}


/// The index of the entry carrying a name.
pub open spec fn entry_ix(es: Seq<DefEntryV>, n: Seq<char>) -> int {
    choose|k: int| 0 <= k < es.len() && es[k].name == n
}

/// One step of the depth-first traversal, as a function: what `visit`
/// does to the colouring and the output.  The fuel bounds the
/// recursion depth; any fuel beyond the number of unvisited entries
/// gives the same answer.
pub open spec fn spec_visit(
    fuel: nat,
    es: Seq<DefEntryV>,
    idx: int,
    st: Seq<SortStatus>,
    out: Seq<Seq<char>>,
) -> Result<(Seq<SortStatus>, Seq<Seq<char>>), SchemaError>
    decreases fuel, 1int, 0int,
{
    if st[idx] == SortStatus::Done {
        Ok((st, out))
    } else if st[idx] == SortStatus::Pending {
        Err(SchemaError::CyclicDefinitions)
    } else if fuel == 0 {
        Err(SchemaError::CyclicDefinitions)
    } else {
        let st1 = st.update(idx, SortStatus::Pending);
        match spec_visit_deps(fuel, es, es[idx].deps, st1, out) {
            Err(e) => Err(e),
            Ok((st2, out2)) => Ok((st2.update(idx, SortStatus::Done), out2.push(es[idx].name))),
        }
    }
}

/// Visits a list of dependencies in order, threading the state.
pub open spec fn spec_visit_deps(
    fuel: nat,
    es: Seq<DefEntryV>,
    deps: Seq<Seq<char>>,
    st: Seq<SortStatus>,
    out: Seq<Seq<char>>,
) -> Result<(Seq<SortStatus>, Seq<Seq<char>>), SchemaError>
    decreases fuel, 0int, deps.len(),
{
    if deps.len() == 0 {
        Ok((st, out))
    } else if !has_entry(es, deps.first()) {
        Err(SchemaError::DanglingReference)
    } else if fuel == 0 {
        Err(SchemaError::CyclicDefinitions)
    } else {
        match spec_visit((fuel - 1) as nat, es, entry_ix(es, deps.first()), st, out) {
            Err(e) => Err(e),
            Ok((st2, out2)) => spec_visit_deps(fuel, es, deps.drop_first(), st2, out2),
        }
    }
}

/// The all-unvisited colouring.
pub open spec fn unvisited_st(n: nat) -> Seq<SortStatus> {
    Seq::new(n, |i: int| SortStatus::Unvisited)
}

/// Visits every entry in registry order, threading the state.
pub open spec fn spec_sort_from(
    es: Seq<DefEntryV>,
    k: nat,
    st: Seq<SortStatus>,
    out: Seq<Seq<char>>,
) -> Result<Seq<Seq<char>>, SchemaError>
    decreases es.len() - k,
{
    if k >= es.len() {
        Ok(out)
    } else {
        match spec_visit((es.len() + 1) as nat, es, k as int, st, out) {
            Err(e) => Err(e),
            Ok((st2, out2)) => spec_sort_from(es, (k + 1) as nat, st2, out2),
        }
    }
}

/// The one order the sorter produces for a registry.
pub open spec fn sort_spec(es: Seq<DefEntryV>) -> Result<Seq<Seq<char>>, SchemaError> {
    spec_sort_from(es, 0, unvisited_st(es.len()), Seq::empty())
}

/// No colour is held by more entries than there are.
proof fn lemma_count_le_len(st: Seq<SortStatus>, s: SortStatus)
    ensures
        count_status(st, s) <= st.len(),
    decreases st.len(),
{
    if st.len() > 0 {
        lemma_count_le_len(st.drop_last(), s);
    }
}

/// The sorter is deterministic: any two results that satisfy its
/// contract on the same registry are equal.
pub proof fn lemma_sort_deterministic(
    es: Seq<DefEntryV>,
    r1: Result<Seq<Seq<char>>, SchemaError>,
    r2: Result<Seq<Seq<char>>, SchemaError>,
)
    requires
        r1 == sort_spec(es),
        r2 == sort_spec(es),
    ensures
        r1 == r2,
{
}


/// The position of a name in the order.
pub open spec fn pos_of(out: Seq<Seq<char>>, n: Seq<char>) -> int {
    choose|m: int| 0 <= m < out.len() && out[m] == n
}

/// Along a dependency path, positions in the order strictly fall.
proof fn lemma_path_pos(es: Seq<DefEntryV>, out: Seq<Seq<char>>, p: Seq<int>, k: int)
    requires
        sorted_names_ok(es, out),
        forall|q: int| 0 <= q < p.len() ==> 0 <= #[trigger] p[q] < es.len(),
        forall|q: int| 0 <= q < p.len() - 1 ==> edge(es, #[trigger] p[q], p[q + 1]),
        0 <= k < p.len(),
    ensures
        0 <= pos_of(out, es[p[k]].name) < out.len(),
        out[pos_of(out, es[p[k]].name)] == es[p[k]].name,
        pos_of(out, es[p[k]].name) <= pos_of(out, es[p[0]].name) - k,
    decreases k,
{
    assert(out.contains(es[p[k]].name));
    if k > 0 {
        lemma_path_pos(es, out, p, k - 1);
        let a = p[k - 1];
        let b = p[k];
        let ma = pos_of(out, es[a].name);
        let mb = pos_of(out, es[b].name);
        assert(edge(es, a, b));
        assert(es[a].deps.contains(es[b].name));
        assert(out.take(ma).contains(es[b].name));
        let m2 = choose|m2: int|
            0 <= m2 < out.take(ma).len() && out.take(ma)[m2] == es[b].name;
        assert(out[m2] == es[b].name);
        assert(m2 == mb);
    }
}

/// An order that respects dependencies certifies the graph acyclic.
pub proof fn lemma_order_acyclic(es: Seq<DefEntryV>, out: Seq<Seq<char>>)
    requires
        sorted_names_ok(es, out),
    ensures
        !has_cycle(es),
{
    if has_cycle(es) {
        let p = choose|p: Seq<int>| is_cycle(es, p);
        let k = p.len() - 1;
        lemma_path_pos(es, out, p, k);
        lemma_path_pos(es, out, p, 0);
        let ml = pos_of(out, es[p[k]].name);
        let m0 = pos_of(out, es[p[0]].name);
        assert(ml <= m0 - k);
        assert(edge(es, p[k], p[0]));
        assert(es[p[k]].deps.contains(es[p[0]].name));
        assert(out.take(ml).contains(es[p[0]].name));
        let m2 = choose|m2: int|
            0 <= m2 < out.take(ml).len() && out.take(ml)[m2] == es[p[0]].name;
        assert(out[m2] == es[p[0]].name);
        assert(m2 == m0);
        assert(m0 < ml);
    }
}

/// An order that covers the registry certifies it closed.
pub proof fn lemma_order_closed(es: Seq<DefEntryV>, out: Seq<Seq<char>>)
    requires
        sorted_names_ok(es, out),
    ensures
        closed(es),
{
    assert forall|i: int, d: Seq<char>|
        0 <= i < es.len() && #[trigger] es[i].deps.contains(d) implies has_entry(es, d) by {
        assert(out.contains(es[i].name));
        let m = choose|m: int| 0 <= m < out.len() && out[m] == es[i].name;
        assert(out.take(m).contains(d));
        let m2 = choose|m2: int| 0 <= m2 < out.take(m).len() && out.take(m)[m2] == d;
        assert(out[m2] == d);
        assert(has_entry(es, out[m2]));
    }
}

} // verus!
