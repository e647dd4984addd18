use vstd::prelude::*;

verus! {

/// Maps one face of a mesh file, given as 1-based vertex indices, onto
/// 0-based positions in a vertex list of length `n_vertices`: `Some` of
/// the three positions exactly when all three indices are in range,
/// `None` otherwise (the caller then rejects the face).
pub fn resolve_face(n_vertices: usize, a: i32, b: i32, c: i32) -> (r: Option<
    (usize, usize, usize),
>)
    ensures
        r is Some <==> (1 <= a <= n_vertices && 1 <= b <= n_vertices && 1 <= c <= n_vertices),
        r matches Some(t) ==> t.0 == a - 1 && t.1 == b - 1 && t.2 == c - 1,
{
    if a >= 1 && b >= 1 && c >= 1 && (a as usize) <= n_vertices && (b as usize) <= n_vertices && (
    c as usize) <= n_vertices {
        Some(((a as usize) - 1, (b as usize) - 1, (c as usize) - 1))
    } else {
        None
    }
}

} // verus!
