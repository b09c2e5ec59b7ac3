//! Priority broker: with an orchestrator configured, streams are served in
//! four classes derived from the WMM access category of their TOS byte,
//! class 0 (voice) first.  The broker holds application identifiers; the
//! queues behind them live with the caller.

use vstd::prelude::*;
use crate::packet::{tos2ac, ac_of};

verus! {

/// Number of priority classes.
pub const NUM_CLASSES: usize = 4;

/// A registered application: its identifier and whether its class pauses
/// briefly after serving it.
#[derive(Clone, Copy, Debug, PartialEq, Eq, Structural)]
pub struct Application {
    pub id: usize,
    pub guarded: bool,
}

pub struct GlobalBroker {
    pub name: Option<String>,
    pub apps: Vec<Vec<Application>>,
}

/// Whether a priority tag asks for a pause after its class is served.
pub open spec fn is_guarded(priority: Seq<char>) -> bool {
    exists|i: int| 0 <= i && i + 8 <= priority.len() && #[trigger] priority.subrange(i, i + 8) == guard_tag()
}

pub open spec fn guard_tag() -> Seq<char> {
    seq!['g', 'u', 'a', 'r', 'd', 'e', 'd', ',']
}

fn contains_guard(priority: &Vec<char>) -> (r: bool)
    ensures
        r == is_guarded(priority@),
{
    let n = priority.len();
    if n < 8 {
        return false;
    }
    let tag: Vec<char> = vec!['g', 'u', 'a', 'r', 'd', 'e', 'd', ','];
    assert(tag@ =~= guard_tag());
    let mut i: usize = 0;
    while i <= n - 8
        invariant
            n == priority@.len(),
            n >= 8,
            i <= n - 7,
            tag@ == guard_tag(),
            forall|k: int| 0 <= k < i ==> #[trigger] priority@.subrange(k, k + 8) != guard_tag(),
        decreases n - i,
    {
        let mut j: usize = 0;
        let mut same = true;
        while j < 8
            invariant
                i + 8 <= n,
                n == priority@.len(),
                j <= 8,
                tag@ == guard_tag(),
                same == (forall|m: int| 0 <= m < j ==> priority@[i + m] == tag@[m]),
            decreases 8 - j,
        {
            if priority[i + j] != tag[j] {
                same = false;
            }
            j = j + 1;
        }
        if same {
            assert(priority@.subrange(i as int, i + 8) =~= guard_tag());
            return true;
        }
        assert(priority@.subrange(i as int, i + 8) != guard_tag()) by {
            let m = choose|m: int| 0 <= m < 8 && priority@[i + m] != tag@[m];
            assert(priority@.subrange(i as int, i + 8)[m] != guard_tag()[m]);
        }
        i = i + 1;
    }
    false
}

impl GlobalBroker {
    pub open spec fn wf(&self) -> bool {
        self.apps@.len() == NUM_CLASSES
    }

    /// A broker with four empty classes; without a name it forwards nothing
    /// and streams go straight to their links.
    pub fn new(name: Option<String>) -> (r: Self)
        ensures
            r.wf(),
            r.name == name,
            forall|c: int| 0 <= c < NUM_CLASSES ==> (#[trigger] r.apps@[c])@.len() == 0,
    {
        let mut apps: Vec<Vec<Application>> = Vec::new();
        let mut c: usize = 0;
        while c < NUM_CLASSES
            invariant
                c <= NUM_CLASSES,
                apps@.len() == c,
                forall|k: int| 0 <= k < c ==> (#[trigger] apps@[k])@.len() == 0,
            decreases NUM_CLASSES - c,
        {
            apps.push(Vec::new());
            c = c + 1;
        }
        GlobalBroker { name, apps }
    }

    /// Registers application `id` of a stream with this TOS byte and
    /// priority tag.  Without an orchestrator nothing is registered and
    /// `None` comes back; otherwise the application joins the end of the
    /// class of its access category, which is returned.
    pub fn add(&mut self, tos: u8, priority: &Vec<char>, id: usize) -> (r: Option<usize>)
        requires
            old(self).wf(),
        ensures
            final(self).wf(),
            final(self).name == old(self).name,
            old(self).name is None ==> r is None && final(self).apps@ == old(self).apps@,
            old(self).name is Some ==> {
                let c = ac_of(tos) as int;
                &&& r == Some(c as usize)
                &&& final(self).apps@[c]@ == old(self).apps@[c]@.push(
                    Application { id, guarded: is_guarded(priority@) },
                )
                &&& forall|k: int| 0 <= k < NUM_CLASSES && k != c ==> #[trigger] final(self).apps@[k] == old(self).apps@[k]
            },
    {
        if self.name.is_none() {
            return None;
        }
        let c = tos2ac(tos);
        let app = Application { id, guarded: contains_guard(priority) };
        let mut class: Vec<Application> = Vec::new();
        self.apps.set_and_swap(c, &mut class);
        class.push(app);
        self.apps.set_and_swap(c, &mut class);
        Some(c)
    }

    /// Drops from class `c` the applications whose downstream closed:
    /// `open[k]` tells whether the `k`-th application of the class is
    /// still served.  The others keep their order.
    pub fn retain_open(&mut self, c: usize, open: &Vec<bool>)
        requires
            old(self).wf(),
            c < NUM_CLASSES,
            open@.len() == old(self).apps@[c as int]@.len(),
        ensures
            final(self).wf(),
            final(self).name == old(self).name,
            final(self).apps@[c as int]@ == kept(old(self).apps@[c as int]@, open@),
            forall|k: int| 0 <= k < NUM_CLASSES && k != c ==> #[trigger] final(self).apps@[k] == old(self).apps@[k],
    {
        let mut class: Vec<Application> = Vec::new();
        self.apps.set_and_swap(c, &mut class);
        let mut out: Vec<Application> = Vec::new();
        let mut i: usize = 0;
        while i < class.len()
            invariant
                open@.len() == class@.len(),
                i <= class@.len(),
                out@ == kept(class@.subrange(0, i as int), open@.subrange(0, i as int)),
            decreases class@.len() - i,
        {
            if open[i] {
                out.push(class[i]);
            }
            proof {
                assert(class@.subrange(0, i + 1).drop_last() =~= class@.subrange(0, i as int));
                assert(open@.subrange(0, i + 1).drop_last() =~= open@.subrange(0, i as int));
            }
            i = i + 1;
        }
        proof {
            assert(class@.subrange(0, class@.len() as int) =~= class@);
            assert(open@.subrange(0, open@.len() as int) =~= open@);
        }
        self.apps.set_and_swap(c, &mut out);
    }
}

/// The applications whose flag is set, in order.
pub open spec fn kept(apps: Seq<Application>, open: Seq<bool>) -> Seq<Application>
    decreases apps.len(),
{
    if apps.len() == 0 || open.len() == 0 {
        seq![]
    } else {
        let prev = kept(apps.drop_last(), open.drop_last());
        if open.last() {
            prev.push(apps.last())
        } else {
            prev
        }
    }
}

} // verus!
