use vstd::prelude::*;
use crate::reply::{
    bindings_model, bindings_of, classify, lemma_pairs_wf, parse_bindings, reply_readable,
    same_bytes, skip_space, verdict_of, Verdict, VerdictModel,
};
use crate::value::{model_wf, Native, NativeModel};
use crate::UnsatError;

verus! {

/// The value bound to `name`: that of the first binding with that symbol.
pub open spec fn lookup(bs: Seq<(Seq<u8>, NativeModel)>, name: Seq<u8>) -> Option<NativeModel>
    decreases bs.len(),
{
    if bs.len() == 0 {
        None
    } else if bs[0].0 == name {
        Some(bs[0].1)
    } else {
        lookup(bs.drop_first(), name)
    }
}

/// A model that the engine reported: the value it assigned to each variable.
#[derive(Debug)]
pub struct Solution {
    bindings: Vec<(Vec<u8>, Native)>,
}

impl View for Solution {
    type V = Seq<(Seq<u8>, NativeModel)>;

    closed spec fn view(&self) -> Seq<(Seq<u8>, NativeModel)> {
        bindings_model(self.bindings@)
    }
}

impl Solution {
    /// Every value is well formed.
    pub open spec fn wf(&self) -> bool {
        forall|i: int| 0 <= i < self@.len() ==> model_wf(#[trigger] self@[i].1)
    }

    /// Reads the outcome of one run of the engine, its exit status and its
    /// output: the model of a satisfiable problem, or `UnsatError` for an
    /// unsatisfiable one. Only a readable reply is accepted.
    pub fn from_reply(success: bool, out: &Vec<u8>) -> (r: Result<Solution, UnsatError>)
        requires
            reply_readable(success, out@),
        ensures
            match verdict_of(success, out@) {
                VerdictModel::Sat(rest) => r matches Ok(sol) && sol@ == bindings_of(rest).unwrap()
                    && sol.wf(),
                _ => r matches Err(_),
            },
    {
        match classify(success, out) {
            Verdict::Sat(rest) => match parse_bindings(&rest) {
                Some(bindings) => {
                    let sol = Solution { bindings };
                    proof {
                        let j = skip_space(rest@, 0);
                        lemma_pairs_wf(rest@, j + 1);
                    }
                    Ok(sol)
                },
                None => Err(UnsatError),
            },
            _ => Err(UnsatError),
        }
    }

    /// The value bound to the variable `name`, if the model has one.
    pub fn get(&self, name: &Vec<u8>) -> (r: Option<Native>)
        requires
            self.wf(),
        ensures
            r is None ==> lookup(self@, name@) is None,
            r matches Some(v) ==> lookup(self@, name@) == Some(v@) && v.wf(),
    {
        let ghost all = self@;
        let mut i: usize = 0;
        assert(all.subrange(0, all.len() as int) =~= all);
        while i < self.bindings.len()
            invariant
                i <= self.bindings@.len(),
                all == self@,
                all == bindings_model(self.bindings@),
                self.wf(),
                lookup(all, name@) == lookup(all.subrange(i as int, all.len() as int), name@),
            decreases self.bindings@.len() - i,
        {
            let ghost here = all.subrange(i as int, all.len() as int);
            assert(here[0] == all[i as int]);
            assert(here.drop_first() =~= all.subrange(i + 1, all.len() as int));
            let b = &self.bindings[i];
            if b.0.len() == name.len() && same_bytes(&b.0, name.as_slice()) {
                assert(all[i as int].0 == name@);
                return Some(b.1.duplicate());
            }
            i += 1;
        }
        None
    }
}

} // verus!
