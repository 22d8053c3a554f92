//! The work of one step: what it computes from the ciphertexts that it
//! reads.
//!
//! Every executor computes a step this way, whatever the order in which it
//! takes the steps.

use crate::ciphertext::{Ciphertext, CiphertextView};
use crate::error::{fault, Error, ErrorKind, ErrorView};
use crate::plan::{copy_vec, Step};
use crate::server::{table_degree, type_halves, views_of, Server};
use crate::shortint::{is_trivial, lookup_outcome};
use crate::test_vector::{consistent, padded, table_type};
use vstd::prelude::*;

verus! {

/// Whether the server can compute with the ciphertext.
pub open spec fn usable(server: Server, ct: CiphertextView) -> bool {
    server.fits(ct) && ct.message_modulus > 0
}

/// The degree of what a bootstrap with the table gives, for the plaintext
/// modulus `p`.
pub open spec fn bootstrap_degree(table: Seq<bool>, p: int) -> usize {
    table_degree(padded(table, p), p).wrapping_add(type_halves(table_type(table, p)) as usize)
}

/// Why the step cannot compute, if it cannot: it is a bootstrap whose table
/// is no test vector for the server's plaintext modulus.
pub open spec fn task_fault(server: Server, step: Step) -> Option<ErrorView> {
    match step {
        Step::Bootstrap { table, .. } => if table@.len() > 2 * server.pt_mod {
            Some(fault(ErrorKind::TableTooLong, Seq::empty()))
        } else if !consistent(table@, server.pt_mod as int) {
            Some(fault(ErrorKind::TableInconsistent, Seq::empty()))
        } else {
            None
        },
        _ => None,
    }
}

/// Whether `out` is a value that the step can give from the values `reads`
/// that it reads: their linear combination, or an outcome of the bootstrap
/// of the one value read, which is determined if anyone can read that
/// value.
pub open spec fn task_result(
    server: Server,
    step: Step,
    reads: Seq<CiphertextView>,
    out: CiphertextView,
) -> bool {
    match step {
        Step::Input => false,
        Step::LinComb { coefs, const_coef, .. } => out == server.lincomb_spec(
            reads,
            coefs@,
            const_coef,
        ),
        Step::Bootstrap { table, .. } => {
            &&& lookup_outcome(reads[0], bootstrap_degree(table@, server.pt_mod as int), out)
            &&& is_trivial(reads[0]) ==> out == server.readable_bootstrap(
                reads[0],
                padded(table@, server.pt_mod as int),
                table_type(table@, server.pt_mod as int),
            )
        },
    }
}

/// Computes a step that is no input from the ciphertexts that it reads, given
/// in the order of its readings.
pub fn run_task(server: &Server, step: &Step, reads: &[&Ciphertext]) -> (r: Result<
    Ciphertext,
    Error,
>)
    requires
        server.well_formed(),
        !(step is Input),
        step.well_shaped(),
        reads@.len() == step.reads().len(),
        forall|x: int| 0 <= x < reads@.len() ==> usable(*server, (#[trigger] reads@[x])@),
    ensures
        match r {
            Ok(ct) => task_fault(*server, *step) is None && task_result(
                *server,
                *step,
                views_of(reads@),
                ct@,
            ) && usable(*server, ct@),
            Err(e) => task_fault(*server, *step) == Some(e@),
        },
{
    match step {
        Step::Input => Err(Error::bare(ErrorKind::MissingInput)),
        Step::LinComb { coefs, const_coef, .. } => {
            Ok(server.lincomb(reads, coefs.as_slice(), *const_coef))
        },
        Step::Bootstrap { table, .. } => {
            assert(views_of(reads@)[0] == reads@[0]@);
            let tv = match server.new_test_vector(copy_vec(table)) {
                Err(e) => {
                    return Err(e);
                },
                Ok(tv) => tv,
            };
            Ok(server.eval_bootstrap(reads[0].duplicate(), &tv))
        },
    }
}

} // verus!
