use vstd::prelude::*;

verus! {

/// Errors surfaced by the stores.
///
/// `DimensionMismatch` reports an embedding whose length differs from the
/// store's dimensionality; the offending operation leaves the store
/// untouched. `HnswError` carries a human-readable description of a backend,
/// capacity, encoding or I/O failure. `NotFound` is reserved for a future
/// id-indexed lookup and is returned by no operation today.
#[derive(Debug, Clone)]
pub enum AgentMemError {
    DimensionMismatch { expected: usize, got: usize },
    HnswError(String),
    NotFound,
}

impl AgentMemError {
    /// Human-readable description of the error; it stands in for
    /// `Display`, which the verifier refuses on the library's types.
    pub fn message(&self) -> (s: String)
        ensures
            self matches AgentMemError::DimensionMismatch { expected, got } ==> s@
                == "Embedding dimension mismatch: expected "@ + crate::codec::enc_nat(
                expected as nat,
            ) + ", got "@ + crate::codec::enc_nat(got as nat),
            self matches AgentMemError::HnswError(m) ==> s@ == "HNSW or IO error: "@ + m@,
            self is NotFound ==> s@ == "Episode not found"@,
    {
        let mut out: Vec<char> = Vec::new();
        match self {
            AgentMemError::DimensionMismatch { expected, got } => {
                crate::codec::push_lit(&mut out, "Embedding dimension mismatch: expected ");
                crate::codec::push_u64(&mut out, *expected as u64);
                crate::codec::push_lit(&mut out, ", got ");
                crate::codec::push_u64(&mut out, *got as u64);
                proof {
                    assert(out@ =~= "Embedding dimension mismatch: expected "@
                        + crate::codec::enc_nat(*expected as nat) + ", got "@
                        + crate::codec::enc_nat(*got as nat));
                }
            },
            AgentMemError::HnswError(m) => {
                crate::codec::push_lit(&mut out, "HNSW or IO error: ");
                let mv = crate::codec::chars_of_str(m.as_str());
                let mut i: usize = 0;
                let n = mv.len();
                while i < n
                    invariant
                        i <= n,
                        n == mv@.len(),
                        mv@ == m@,
                        out@ == "HNSW or IO error: "@ + m@.take(i as int),
                    decreases n - i,
                {
                    out.push(mv[i]);
                    proof {
                        assert(out@ =~= "HNSW or IO error: "@ + m@.take(i + 1));
                    }
                    i = i + 1;
                }
                proof {
                    assert(out@ =~= "HNSW or IO error: "@ + m@);
                }
            },
            AgentMemError::NotFound => {
                crate::codec::push_lit(&mut out, "Episode not found");
                proof {
                    assert(out@ =~= "Episode not found"@);
                }
            },
        }
        crate::codec::string_from_chars(&out)
    }
}

} // verus!
