//! One named brain: a chain plus its immutable configuration, and the
//! operations a request performs against it.

use vstd::prelude::*;

use crate::chainmodel::train_text_m;
use crate::markov::Markov;
use crate::rng::Rand;
use crate::types::{Error, Generated, GenerateOptions, TrainData, Trained};
use vstd::string::StrSliceExecFns;

verus! {

/// A brain's immutable configuration.
pub struct BrainConfig {
    pub name: String,
    pub brain_file: String,
    pub read_only: bool,
}

/// A chain together with the configuration it was loaded under.
pub struct ConfiguredMarkov {
    pub config: BrainConfig,
    pub markov: Markov,
}

/// One named model: a chain behind its configuration. Exclusive access is
/// the owner's concern; within one brain every operation below is ordinary
/// exclusive Rust.
pub struct Brain {
    pub config: BrainConfig,
    pub markov: Markov,
}

impl Brain {
    pub open spec fn wf(&self) -> bool {
        self.markov.wf()
    }

    pub fn new(config: BrainConfig, markov: Markov) -> (r: Brain)
        ensures
            r.config == config,
            r.markov == markov,
    {
        Brain { config, markov }
    }

    /// The train operation: rejected outright on a read-only brain, with
    /// the chain untouched; otherwise the text is trained into the chain.
    pub fn train(&mut self, input: TrainData, elapsed_ms: u64) -> (r: Result<Trained, Error>)
        requires
            old(self).wf(),
        ensures
            final(self).wf(),
            final(self).config == old(self).config,
            old(self).config.read_only ==> (r matches Err(Error::ReadOnly)) && final(self).markov@
                == old(self).markov@,
            !old(self).config.read_only ==> (r matches Ok(t) && t.data@ == input.data@ && t.time_ms
                == elapsed_ms) && final(self).markov@ == train_text_m(
                old(self).markov@,
                crate::chainmodel::ws_normalize(vstd::utf8::encode_utf8(input.data@)),
            ),
    {
        if self.config.read_only {
            return Err(Error::ReadOnly);
        }
        self.markov.train_text(input.data.as_str());
        Ok(Trained { data: input.data, time_ms: elapsed_ms })
    }

    /// The generate operation: an utterance from the chain, or
    /// `NotEnoughState` when a seed is needed and the start set is empty.
    pub fn generate(&self, rng: &mut Rand, opts: GenerateOptions) -> (r: Result<Generated, Error>)
        requires
            self.wf(),
        ensures
            self.markov@.starts.len() > 0 ==> (r matches Ok(g) && g.name@ == self.config.name@),
            self.markov@.starts.len() == 0 ==> r matches Err(Error::NotEnoughState),
            r is Err ==> r matches Err(Error::NotEnoughState),
            r matches Ok(g) ==> g.name@ == self.config.name@ && crate::sample::generated_ok(
                self.markov@,
                opts.context_bytes(),
                opts.min_or_default(),
                opts.max_or_default(),
                g.data@,
            ),
    {
        let min = match opts.min {
            Some(v) => v,
            None => 5,
        };
        let max = match opts.max {
            Some(v) => v,
            None => 30,
        };
        let qb: Option<Vec<u8>> = match &opts.context {
            Some(c) => Some(c.as_str().as_bytes_vec()),
            None => None,
        };
        let q: Option<&Vec<u8>> = match &qb {
            Some(v) => Some(v),
            None => None,
        };
        match self.markov.generate(rng, min, max, q) {
            Some(data) => {
                proof {
                    assert(crate::sample::query_view(q) == opts.context_bytes());
                    assert(min as int == opts.min_or_default());
                    assert(max as int == opts.max_or_default());
                }
                Ok(Generated { name: self.config.name.clone(), data })
            },
            None => Err(Error::NotEnoughState),
        }
    }

    /// The serialization step of save: this brain's chain as the bytes its
    /// backing file should hold, or `CannotSave` when the image is beyond
    /// the compressor's limit.
    pub fn save(&self) -> (r: Result<Vec<u8>, Error>)
        ensures
            r matches Ok(v) ==> v@ == crate::persist::snappy_of(
                crate::codec::enc_markov(self.markov@),
            ),
            r is Ok <==> crate::persist::snappy_accepts(
                crate::codec::enc_markov(self.markov@).len(),
            ),
            r matches Err(e) ==> (e matches Error::CannotSave { file, reason } && file@
                == self.config.brain_file@),
    {
        match crate::persist::save(&self.markov) {
            Ok(v) => Ok(v),
            Err(_) => Err(
                Error::CannotSave {
                    file: self.config.brain_file.clone(),
                    reason: <String as vstd::string::StringExecFns>::from_str(
                        "chain image too large to compress",
                    ),
                },
            ),
        }
    }
}

} // verus!
