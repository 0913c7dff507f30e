//! The configurations that the cost of a demand fault is measured in.

use crate::text::{decimal, push_decimal};
use crate::uffd::topology::{Placement, Topology};
use vstd::prelude::*;
use vstd::string::StringExecFns;

verus! {

/// One configuration.
#[derive(Debug)]
pub struct Config {
    pub label: String,
    /// `None` means no userfaultfd at all: the kernel's own anonymous-page fault, as a baseline.
    pub handler_cpu: Option<usize>,
    /// Pages installed per fault.
    pub batch: usize,
    /// The handler spins on the fd instead of waiting in `poll`.
    pub spin: bool,
}

/// What a configuration says.
#[verifier::ext_equal]
pub struct ConfigModel {
    pub label: Seq<char>,
    pub handler_cpu: Option<usize>,
    pub batch: usize,
    pub spin: bool,
}

impl View for Config {
    type V = ConfigModel;

    open spec fn view(&self) -> ConfigModel {
        ConfigModel {
            label: self.label@,
            handler_cpu: self.handler_cpu,
            batch: self.batch,
            spin: self.spin,
        }
    }
}

/// What a list of configurations says.
pub open spec fn models(configs: Seq<Config>) -> Seq<ConfigModel> {
    configs.map_values(|c: Config| c@)
}

/// The kernel's own fault, which everything else is measured against.
pub open spec fn baseline() -> ConfigModel {
    ConfigModel {
        label: "no uffd (kernel anon fault)"@,
        handler_cpu: None,
        batch: 0,
        spin: false,
    }
}

/// One page per fault, with the handler at `place`, waiting or spinning.
pub open spec fn single_page(place: Placement, cpu: usize, spin: bool) -> ConfigModel {
    ConfigModel {
        label: "uffd batch=1, "@ + place.words() + if spin {
            " (spin)"@
        } else {
            " (poll)"@
        },
        handler_cpu: Some(cpu),
        batch: 1,
        spin,
    }
}

/// A batch of pages per fault, with the handler on another core.
pub open spec fn batched(cpu: usize, batch: usize) -> ConfigModel {
    ConfigModel {
        label: "uffd batch="@ + decimal(batch as nat) + ", different physical core (poll)"@,
        handler_cpu: Some(cpu),
        batch,
        spin: false,
    }
}

/// Both ways of waiting at `place`, if the machine offers it.
pub open spec fn at_place(place: Placement, cpu: Option<usize>) -> Seq<ConfigModel> {
    match cpu {
        Some(cpu) => seq![single_page(place, cpu, false), single_page(place, cpu, true)],
        None => Seq::empty(),
    }
}

/// The batch sizes, if the machine offers another core.
pub open spec fn batch_sizes(cpu: Option<usize>) -> Seq<ConfigModel> {
    match cpu {
        Some(cpu) => seq![
            batched(cpu, 2),
            batched(cpu, 4),
            batched(cpu, 8),
            batched(cpu, 16),
            batched(cpu, 64),
        ],
        None => Seq::empty(),
    }
}

/// All configurations in forward order: the baseline, every placement that the machine offers with
/// both ways of waiting, and the batch sizes.
pub open spec fn forward_sweep(t: Topology) -> Seq<ConfigModel> {
    seq![baseline()] + at_place(Placement::OtherCore, t.other_core) + at_place(
        Placement::SmtSibling,
        t.smt_sibling,
    ) + at_place(Placement::SameCpu, Some(t.faulter)) + batch_sizes(t.other_core)
}

fn push_single(out: &mut Vec<Config>, place: Placement, cpu: usize, spin: bool)
    ensures
        models(final(out)@) == models(old(out)@).push(single_page(place, cpu, spin)),
{
    let mut label = String::from_str("uffd batch=1, ");
    label.append(place.name());
    if spin {
        label.append(" (spin)");
    } else {
        label.append(" (poll)");
    }
    out.push(Config { label, handler_cpu: Some(cpu), batch: 1, spin });
    assert(models(out@) =~= models(old(out)@).push(single_page(place, cpu, spin)));
}

fn push_placement(out: &mut Vec<Config>, place: Placement, cpu: Option<usize>)
    ensures
        models(final(out)@) == models(old(out)@) + at_place(place, cpu),
{
    match cpu {
        Some(cpu) => {
            push_single(out, place, cpu, false);
            push_single(out, place, cpu, true);
        },
        None => {},
    }
    assert(models(out@) =~= models(old(out)@) + at_place(place, cpu));
}

fn push_batched(out: &mut Vec<Config>, cpu: usize, batch: usize)
    ensures
        models(final(out)@) == models(old(out)@).push(batched(cpu, batch)),
{
    let mut label = String::from_str("uffd batch=");
    push_decimal(&mut label, batch as u64);
    label.append(", different physical core (poll)");
    out.push(Config { label, handler_cpu: Some(cpu), batch, spin: false });
    assert(models(out@) =~= models(old(out)@).push(batched(cpu, batch)));
}

fn push_batches(out: &mut Vec<Config>, cpu: Option<usize>)
    ensures
        models(final(out)@) == models(old(out)@) + batch_sizes(cpu),
{
    match cpu {
        Some(cpu) => {
            push_batched(out, cpu, 2);
            push_batched(out, cpu, 4);
            push_batched(out, cpu, 8);
            push_batched(out, cpu, 16);
            push_batched(out, cpu, 64);
        },
        None => {},
    }
    assert(models(out@) =~= models(old(out)@) + batch_sizes(cpu));
}

/// The configurations to measure, in forward order or in reverse. The reverse is a control: if the
/// order mattered, the two would disagree systematically.
pub fn sweep(topology: &Topology, reverse: bool) -> (r: Vec<Config>)
    ensures
        models(r@) == if reverse {
            forward_sweep(*topology).reverse()
        } else {
            forward_sweep(*topology)
        },
{
    let mut out: Vec<Config> = Vec::new();
    out.push(
        Config {
            label: String::from_str("no uffd (kernel anon fault)"),
            handler_cpu: None,
            batch: 0,
            spin: false,
        },
    );
    assert(models(out@) =~= seq![baseline()]);
    push_placement(&mut out, Placement::OtherCore, topology.other_core);
    push_placement(&mut out, Placement::SmtSibling, topology.smt_sibling);
    push_placement(&mut out, Placement::SameCpu, Some(topology.faulter));
    push_batches(&mut out, topology.other_core);
    if !reverse {
        return out;
    }
    let ghost forward = out@;
    let mut back: Vec<Config> = Vec::new();
    while out.len() > 0
        invariant
            out@.len() + back@.len() == forward.len(),
            out@ == forward.take(out@.len() as int),
            back@ =~= forward.skip(out@.len() as int).reverse(),
        decreases out@.len(),
    {
        let ghost n = out@.len();
        let c = out.pop().unwrap();
        back.push(c);
        assert(back@ =~= forward.skip(n - 1).reverse());
    }
    assert(forward.skip(0) =~= forward);
    assert(models(back@) =~= models(forward).reverse());
    back
}

/// The placements that the machine does not offer, and that the sweep therefore leaves out.
pub fn skipped(topology: &Topology) -> (r: Vec<Placement>)
    ensures
        r@ == (if topology.other_core is None {
            seq![Placement::OtherCore]
        } else {
            Seq::empty()
        }) + (if topology.smt_sibling is None {
            seq![Placement::SmtSibling]
        } else {
            Seq::empty()
        }),
{
    let mut out: Vec<Placement> = Vec::new();
    if topology.other_core.is_none() {
        out.push(Placement::OtherCore);
    }
    if topology.smt_sibling.is_none() {
        out.push(Placement::SmtSibling);
    }
    assert(out@ =~= (if topology.other_core is None {
        seq![Placement::OtherCore]
    } else {
        Seq::empty()
    }) + (if topology.smt_sibling is None {
        seq![Placement::SmtSibling]
    } else {
        Seq::empty()
    }));
    out
}


/// What is measured: the kernel's own fault first, with no handler; then, at each placement that the
/// machine offers, one page per fault, with a handler that waits and with one that spins; and, if it
/// offers another core, the batches of 2, 4, 8, 16 and 64 pages, with a handler there that waits.
/// Nothing is measured at a placement that it does not offer.
pub proof fn law_sweep_measures_what_is_offered(t: Topology)
    ensures
        ({
            let s = forward_sweep(t);
            let other = if t.other_core is Some {
                2int
            } else {
                0
            };
            let sibling = if t.smt_sibling is Some {
                2int
            } else {
                0
            };
            let same = 1 + other + sibling;
            &&& s.len() == same + 2 + if t.other_core is Some {
                5int
            } else {
                0
            }
            &&& s[0].handler_cpu is None && s[0].batch == 0 && !s[0].spin
            &&& t.other_core is Some ==> s[1].handler_cpu == t.other_core && s[1].batch == 1
                && !s[1].spin && s[2].handler_cpu == t.other_core && s[2].batch == 1 && s[2].spin
            &&& t.smt_sibling is Some ==> s[1 + other].handler_cpu == t.smt_sibling && s[1
                + other].batch == 1 && !s[1 + other].spin && s[2 + other].handler_cpu
                == t.smt_sibling && s[2 + other].batch == 1 && s[2 + other].spin
            &&& s[same].handler_cpu == Some(t.faulter) && s[same].batch == 1 && !s[same].spin
            &&& s[same + 1].handler_cpu == Some(t.faulter) && s[same + 1].batch == 1 && s[same
                + 1].spin
            &&& t.other_core is Some ==> {
                &&& s[same + 2].batch == 2 && s[same + 3].batch == 4 && s[same + 4].batch == 8
                &&& s[same + 5].batch == 16 && s[same + 6].batch == 64
                &&& forall|i: int|
                    same + 2 <= i < same + 7 ==> (#[trigger] s[i]).handler_cpu == t.other_core
                        && !s[i].spin
            }
        }),
{
}

/// How a configuration is labelled: by its batch, its placement, and how the handler waits.
pub proof fn law_labels_say_what_is_measured(place: Placement, cpu: usize, spin: bool, batch: usize)
    ensures
        baseline().label == "no uffd (kernel anon fault)"@,
        single_page(place, cpu, spin).label == "uffd batch=1, "@ + (match place {
            Placement::SameCpu => "same logical CPU"@,
            Placement::SmtSibling => "SMT sibling"@,
            Placement::OtherCore => "different physical core"@,
        }) + (if spin {
            " (spin)"@
        } else {
            " (poll)"@
        }),
        batched(cpu, batch).label == "uffd batch="@ + decimal(batch as nat)
            + ", different physical core (poll)"@,
{
}


/// The fields that a caller reads are those that the laws speak of.
pub proof fn law_configurations_are_what_they_say(configs: Seq<Config>, i: int)
    requires
        0 <= i < configs.len(),
    ensures
        models(configs).len() == configs.len(),
        models(configs)[i].label == configs[i].label@,
        models(configs)[i].handler_cpu == configs[i].handler_cpu,
        models(configs)[i].batch == configs[i].batch,
        models(configs)[i].spin == configs[i].spin,
{
}

} // verus!
