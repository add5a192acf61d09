//! Canonical source audio and the cache that loads each source once.

use vstd::prelude::*;
use vstd::string::StringExecFns;
use crate::errors::MixError;

verus! {

/// One decoded source held in canonical form: interleaved stereo
/// fixed-point samples at the project rate, read-only once constructed.
#[derive(Debug)]
pub struct CanonicalSample {
    /// The source name this buffer was decoded from.
    pub name: String,
    /// Interleaved stereo samples; UNIT stands for an amplitude of 1.0.
    /// Amplitude is not clamped at this stage.
    pub data: Vec<i32>,
}

impl CanonicalSample {
    /// A canonical buffer holds whole stereo frames.
    pub open spec fn wf(&self) -> bool {
        self.data@.len() % 2 == 0
    }
}

/// The first entry of `entries` whose name reads `name`, if any.
pub open spec fn find_in(entries: Seq<CanonicalSample>, name: Seq<char>) -> Option<CanonicalSample>
    decreases entries.len(),
{
    if entries.len() == 0 {
        None
    } else if entries[0].name@ == name {
        Some(entries[0])
    } else {
        find_in(entries.skip(1), name)
    }
}

/// What a find result means: a hit carries the name it was looked up under
/// and is an entry of the sequence; a miss means no entry has the name.
pub proof fn lemma_find_in_props(entries: Seq<CanonicalSample>, name: Seq<char>)
    ensures
        match find_in(entries, name) {
            Some(c) => c.name@ == name && exists|i: int|
                0 <= i < entries.len() && entries[i] == c,
            None => forall|i: int| 0 <= i < entries.len() ==> entries[i].name@ != name,
        },
    decreases entries.len(),
{
    if entries.len() > 0 && entries[0].name@ != name {
        lemma_find_in_props(entries.skip(1), name);
        match find_in(entries.skip(1), name) {
            Some(c) => {
                let i = choose|i: int|
                    0 <= i < entries.skip(1).len() && entries.skip(1)[i] == c;
                assert(entries[i + 1] == c);
            },
            None => {
                assert forall|i: int| 0 <= i < entries.len() implies entries[i].name@ != name by {
                    if i > 0 {
                        assert(entries.skip(1)[i - 1] == entries[i]);
                    }
                }
            },
        }
    }
}

/// Canonicalize decoded source audio already at the project rate: stereo
/// input is kept as is, a mono channel is duplicated into both stereo
/// channels, and any other channel count is refused as unavailable, as is
/// stereo data that ends in the middle of a frame.
pub fn canonicalize(name: String, data: Vec<i32>, channels: u32) -> (r: Result<
    CanonicalSample,
    MixError,
>)
    ensures
        r is Ok <==> (channels == 1 || (channels == 2 && data@.len() % 2 == 0)),
        match r {
            Ok(c) => c.wf() && c.name@ == name@ && (channels == 2 ==> c.data@ == data@) && (
            channels == 1 ==> c.data@.len() == 2 * data@.len() && (forall|i: int|
                0 <= i < data@.len() ==> c.data@[2 * i] == data@[i] && c.data@[2 * i + 1]
                    == data@[i])),
            Err(e) => e is SourceUnavailable,
        },
{
    if channels == 2 {
        if data.len() % 2 == 0 {
            Ok(CanonicalSample { name, data })
        } else {
            Err(
                MixError::SourceUnavailable(
                    "stereo source ends mid-frame: ".to_owned().concat(name.as_str()),
                ),
            )
        }
    } else if channels == 1 {
        let mut out: Vec<i32> = Vec::new();
        let mut i: usize = 0;
        while i < data.len()
            invariant
                i <= data@.len(),
                out@.len() == 2 * i,
                forall|k: int|
                    0 <= k < i ==> out@[2 * k] == data@[k] && out@[2 * k + 1] == data@[k],
            decreases data@.len() - i,
        {
            let v = data[i];
            out.push(v);
            out.push(v);
            i = i + 1;
        }
        Ok(CanonicalSample { name, data: out })
    } else {
        Err(
            MixError::SourceUnavailable(
                "unsupported channel count: ".to_owned().concat(name.as_str()),
            ),
        )
    }
}

/// Loads each distinct source at most once and retains its canonical form
/// for the lifetime of the run.
pub struct SampleCache {
    entries: Vec<CanonicalSample>,
}

impl View for SampleCache {
    type V = Seq<CanonicalSample>;

    closed spec fn view(&self) -> Seq<CanonicalSample> {
        self.entries@
    }
}

impl SampleCache {
    /// Entries hold distinct names and well-formed buffers.
    pub open spec fn wf(&self) -> bool {
        (forall|i: int, j: int|
            0 <= i < j < self@.len() ==> self@[i].name@ != self@[j].name@) && (forall|i: int|
            0 <= i < self@.len() ==> self@[i].wf())
    }

    /// An empty cache.
    pub fn new() -> (c: SampleCache)
        ensures
            c@ == Seq::<CanonicalSample>::empty(),
            c.wf(),
    {
        SampleCache { entries: Vec::new() }
    }

    /// The cached sample of this name, if one was stored.
    pub fn lookup(&self, name: &String) -> (r: Option<&CanonicalSample>)
        ensures
            match r {
                Some(c) => find_in(self@, name@) == Some(*c),
                None => find_in(self@, name@) is None,
            },
    {
        let mut i: usize = 0;
        proof {
            assert(self.entries@.skip(0) =~= self.entries@);
        }
        while i < self.entries.len()
            invariant
                i <= self.entries@.len(),
                find_in(self.entries@.skip(i as int), name@) == find_in(self.entries@, name@),
            decreases self.entries@.len() - i,
        {
            proof {
                assert(self.entries@.skip(i as int)[0] == self.entries@[i as int]);
            }
            if self.entries[i].name == *name {
                return Some(&self.entries[i]);
            }
            proof {
                assert(self.entries@.skip(i as int).skip(1) =~= self.entries@.skip(i as int + 1));
            }
            i = i + 1;
        }
        None
    }

    /// Whether a sample of this name was already stored.
    pub fn contains(&self, name: &String) -> (b: bool)
        ensures
            b == (find_in(self@, name@) is Some),
    {
        self.lookup(name).is_some()
    }

    /// Store a sample under a name not yet present. Together with the
    /// distinct-names invariant this keeps each source loaded at most once.
    pub fn insert(&mut self, sample: CanonicalSample)
        requires
            old(self).wf(),
            sample.wf(),
            find_in(old(self)@, sample.name@) is None,
        ensures
            final(self).wf(),
            final(self)@ == old(self)@.push(sample),
    {
        proof {
            lemma_find_in_props(self.entries@, sample.name@);
        }
        let ghost prev = self.entries@;
        self.entries.push(sample);
        proof {
            assert forall|i: int, j: int|
                0 <= i < j < self@.len() implies self@[i].name@ != self@[j].name@ by {
                if j < prev.len() {
                    assert(self@[i] == prev[i] && self@[j] == prev[j]);
                } else {
                    assert(self@[i] == prev[i]);
                }
            }
        }
    }
}

} // verus!
