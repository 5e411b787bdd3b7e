//! Cramer's rule for three vectors, proved by multiplying out.
//!
//! Every product of four components is brought to one order of its
//! factors; the rule is then a sum of such products on both sides.

use crate::vector::V3;
use vstd::prelude::*;

verus! {

/// Four factors, in the order that `lemma_cramer` counts them in.
proof fn lemma_monomial_a(x: int, y: int, z: int, w: int)
    by (nonlinear_arith)
    ensures
        (x * (y * z)) * w == ((x * y) * z) * w,
{
}

proof fn lemma_monomial_b(x: int, y: int, z: int, w: int)
    by (nonlinear_arith)
    ensures
        (x * (y * z)) * w == ((w * y) * z) * x,
{
}

proof fn lemma_monomial_c(x: int, y: int, z: int, w: int)
    by (nonlinear_arith)
    ensures
        (x * (y * z)) * w == ((z * x) * w) * y,
{
}

proof fn lemma_monomial_f(x: int, y: int, z: int, w: int)
    by (nonlinear_arith)
    ensures
        (x * (y * z)) * w == ((z * w) * x) * y,
{
}

proof fn lemma_cramer_x(e1: V3, e2: V3, d: V3, tv: V3)
    ensures
        e1.dot(d.cross(e2)) * tv.x == tv.dot(d.cross(e2)) * e1.x + d.dot(tv.cross(e1)) * e2.x
            - e2.dot(tv.cross(e1)) * d.x,
{
    let det0 = e1.x * (d.y * e2.z);
    let det1 = e1.x * (d.z * e2.y);
    let det2 = e1.y * (d.z * e2.x);
    let det3 = e1.y * (d.x * e2.z);
    let det4 = e1.z * (d.x * e2.y);
    let det5 = e1.z * (d.y * e2.x);
    assert(e1.x * (d.y * e2.z - d.z * e2.y) == det0 - det1) by (nonlinear_arith)
        requires
            det0 == e1.x * (d.y * e2.z),
            det1 == e1.x * (d.z * e2.y),
    ;
    assert(e1.y * (d.z * e2.x - d.x * e2.z) == det2 - det3) by (nonlinear_arith)
        requires
            det2 == e1.y * (d.z * e2.x),
            det3 == e1.y * (d.x * e2.z),
    ;
    assert(e1.z * (d.x * e2.y - d.y * e2.x) == det4 - det5) by (nonlinear_arith)
        requires
            det4 == e1.z * (d.x * e2.y),
            det5 == e1.z * (d.y * e2.x),
    ;
    let det = (det0 - det1) + (det2 - det3) + (det4 - det5);
    assert(det * tv.x == (det0 * tv.x - det1 * tv.x) + (det2 * tv.x - det3 * tv.x) + (det4 * tv.x - det5 * tv.x)) by (nonlinear_arith)
        requires
            det == (det0 - det1) + (det2 - det3) + (det4 - det5),
    ;
    lemma_monomial_a(e1.x, d.y, e2.z, tv.x);
    lemma_monomial_a(e1.x, d.z, e2.y, tv.x);
    lemma_monomial_a(e1.y, d.z, e2.x, tv.x);
    lemma_monomial_a(e1.y, d.x, e2.z, tv.x);
    lemma_monomial_a(e1.z, d.x, e2.y, tv.x);
    lemma_monomial_a(e1.z, d.y, e2.x, tv.x);
    let u0 = tv.x * (d.y * e2.z);
    let u1 = tv.x * (d.z * e2.y);
    let u2 = tv.y * (d.z * e2.x);
    let u3 = tv.y * (d.x * e2.z);
    let u4 = tv.z * (d.x * e2.y);
    let u5 = tv.z * (d.y * e2.x);
    assert(tv.x * (d.y * e2.z - d.z * e2.y) == u0 - u1) by (nonlinear_arith)
        requires
            u0 == tv.x * (d.y * e2.z),
            u1 == tv.x * (d.z * e2.y),
    ;
    assert(tv.y * (d.z * e2.x - d.x * e2.z) == u2 - u3) by (nonlinear_arith)
        requires
            u2 == tv.y * (d.z * e2.x),
            u3 == tv.y * (d.x * e2.z),
    ;
    assert(tv.z * (d.x * e2.y - d.y * e2.x) == u4 - u5) by (nonlinear_arith)
        requires
            u4 == tv.z * (d.x * e2.y),
            u5 == tv.z * (d.y * e2.x),
    ;
    let u = (u0 - u1) + (u2 - u3) + (u4 - u5);
    assert(u * e1.x == (u0 * e1.x - u1 * e1.x) + (u2 * e1.x - u3 * e1.x) + (u4 * e1.x - u5 * e1.x)) by (nonlinear_arith)
        requires
            u == (u0 - u1) + (u2 - u3) + (u4 - u5),
    ;
    lemma_monomial_b(tv.x, d.y, e2.z, e1.x);
    lemma_monomial_b(tv.x, d.z, e2.y, e1.x);
    lemma_monomial_b(tv.y, d.z, e2.x, e1.x);
    lemma_monomial_b(tv.y, d.x, e2.z, e1.x);
    lemma_monomial_b(tv.z, d.x, e2.y, e1.x);
    lemma_monomial_b(tv.z, d.y, e2.x, e1.x);
    let v0 = d.x * (tv.y * e1.z);
    let v1 = d.x * (tv.z * e1.y);
    let v2 = d.y * (tv.z * e1.x);
    let v3 = d.y * (tv.x * e1.z);
    let v4 = d.z * (tv.x * e1.y);
    let v5 = d.z * (tv.y * e1.x);
    assert(d.x * (tv.y * e1.z - tv.z * e1.y) == v0 - v1) by (nonlinear_arith)
        requires
            v0 == d.x * (tv.y * e1.z),
            v1 == d.x * (tv.z * e1.y),
    ;
    assert(d.y * (tv.z * e1.x - tv.x * e1.z) == v2 - v3) by (nonlinear_arith)
        requires
            v2 == d.y * (tv.z * e1.x),
            v3 == d.y * (tv.x * e1.z),
    ;
    assert(d.z * (tv.x * e1.y - tv.y * e1.x) == v4 - v5) by (nonlinear_arith)
        requires
            v4 == d.z * (tv.x * e1.y),
            v5 == d.z * (tv.y * e1.x),
    ;
    let v = (v0 - v1) + (v2 - v3) + (v4 - v5);
    assert(v * e2.x == (v0 * e2.x - v1 * e2.x) + (v2 * e2.x - v3 * e2.x) + (v4 * e2.x - v5 * e2.x)) by (nonlinear_arith)
        requires
            v == (v0 - v1) + (v2 - v3) + (v4 - v5),
    ;
    lemma_monomial_c(d.x, tv.y, e1.z, e2.x);
    lemma_monomial_c(d.x, tv.z, e1.y, e2.x);
    lemma_monomial_c(d.y, tv.z, e1.x, e2.x);
    lemma_monomial_c(d.y, tv.x, e1.z, e2.x);
    lemma_monomial_c(d.z, tv.x, e1.y, e2.x);
    lemma_monomial_c(d.z, tv.y, e1.x, e2.x);
    let t0 = e2.x * (tv.y * e1.z);
    let t1 = e2.x * (tv.z * e1.y);
    let t2 = e2.y * (tv.z * e1.x);
    let t3 = e2.y * (tv.x * e1.z);
    let t4 = e2.z * (tv.x * e1.y);
    let t5 = e2.z * (tv.y * e1.x);
    assert(e2.x * (tv.y * e1.z - tv.z * e1.y) == t0 - t1) by (nonlinear_arith)
        requires
            t0 == e2.x * (tv.y * e1.z),
            t1 == e2.x * (tv.z * e1.y),
    ;
    assert(e2.y * (tv.z * e1.x - tv.x * e1.z) == t2 - t3) by (nonlinear_arith)
        requires
            t2 == e2.y * (tv.z * e1.x),
            t3 == e2.y * (tv.x * e1.z),
    ;
    assert(e2.z * (tv.x * e1.y - tv.y * e1.x) == t4 - t5) by (nonlinear_arith)
        requires
            t4 == e2.z * (tv.x * e1.y),
            t5 == e2.z * (tv.y * e1.x),
    ;
    let t = (t0 - t1) + (t2 - t3) + (t4 - t5);
    assert(t * d.x == (t0 * d.x - t1 * d.x) + (t2 * d.x - t3 * d.x) + (t4 * d.x - t5 * d.x)) by (nonlinear_arith)
        requires
            t == (t0 - t1) + (t2 - t3) + (t4 - t5),
    ;
    lemma_monomial_f(e2.x, tv.y, e1.z, d.x);
    lemma_monomial_f(e2.x, tv.z, e1.y, d.x);
    lemma_monomial_f(e2.y, tv.z, e1.x, d.x);
    lemma_monomial_f(e2.y, tv.x, e1.z, d.x);
    lemma_monomial_f(e2.z, tv.x, e1.y, d.x);
    lemma_monomial_f(e2.z, tv.y, e1.x, d.x);
}

proof fn lemma_cramer_y(e1: V3, e2: V3, d: V3, tv: V3)
    ensures
        e1.dot(d.cross(e2)) * tv.y == tv.dot(d.cross(e2)) * e1.y + d.dot(tv.cross(e1)) * e2.y
            - e2.dot(tv.cross(e1)) * d.y,
{
    let det0 = e1.x * (d.y * e2.z);
    let det1 = e1.x * (d.z * e2.y);
    let det2 = e1.y * (d.z * e2.x);
    let det3 = e1.y * (d.x * e2.z);
    let det4 = e1.z * (d.x * e2.y);
    let det5 = e1.z * (d.y * e2.x);
    assert(e1.x * (d.y * e2.z - d.z * e2.y) == det0 - det1) by (nonlinear_arith)
        requires
            det0 == e1.x * (d.y * e2.z),
            det1 == e1.x * (d.z * e2.y),
    ;
    assert(e1.y * (d.z * e2.x - d.x * e2.z) == det2 - det3) by (nonlinear_arith)
        requires
            det2 == e1.y * (d.z * e2.x),
            det3 == e1.y * (d.x * e2.z),
    ;
    assert(e1.z * (d.x * e2.y - d.y * e2.x) == det4 - det5) by (nonlinear_arith)
        requires
            det4 == e1.z * (d.x * e2.y),
            det5 == e1.z * (d.y * e2.x),
    ;
    let det = (det0 - det1) + (det2 - det3) + (det4 - det5);
    assert(det * tv.y == (det0 * tv.y - det1 * tv.y) + (det2 * tv.y - det3 * tv.y) + (det4 * tv.y - det5 * tv.y)) by (nonlinear_arith)
        requires
            det == (det0 - det1) + (det2 - det3) + (det4 - det5),
    ;
    lemma_monomial_a(e1.x, d.y, e2.z, tv.y);
    lemma_monomial_a(e1.x, d.z, e2.y, tv.y);
    lemma_monomial_a(e1.y, d.z, e2.x, tv.y);
    lemma_monomial_a(e1.y, d.x, e2.z, tv.y);
    lemma_monomial_a(e1.z, d.x, e2.y, tv.y);
    lemma_monomial_a(e1.z, d.y, e2.x, tv.y);
    let u0 = tv.x * (d.y * e2.z);
    let u1 = tv.x * (d.z * e2.y);
    let u2 = tv.y * (d.z * e2.x);
    let u3 = tv.y * (d.x * e2.z);
    let u4 = tv.z * (d.x * e2.y);
    let u5 = tv.z * (d.y * e2.x);
    assert(tv.x * (d.y * e2.z - d.z * e2.y) == u0 - u1) by (nonlinear_arith)
        requires
            u0 == tv.x * (d.y * e2.z),
            u1 == tv.x * (d.z * e2.y),
    ;
    assert(tv.y * (d.z * e2.x - d.x * e2.z) == u2 - u3) by (nonlinear_arith)
        requires
            u2 == tv.y * (d.z * e2.x),
            u3 == tv.y * (d.x * e2.z),
    ;
    assert(tv.z * (d.x * e2.y - d.y * e2.x) == u4 - u5) by (nonlinear_arith)
        requires
            u4 == tv.z * (d.x * e2.y),
            u5 == tv.z * (d.y * e2.x),
    ;
    let u = (u0 - u1) + (u2 - u3) + (u4 - u5);
    assert(u * e1.y == (u0 * e1.y - u1 * e1.y) + (u2 * e1.y - u3 * e1.y) + (u4 * e1.y - u5 * e1.y)) by (nonlinear_arith)
        requires
            u == (u0 - u1) + (u2 - u3) + (u4 - u5),
    ;
    lemma_monomial_b(tv.x, d.y, e2.z, e1.y);
    lemma_monomial_b(tv.x, d.z, e2.y, e1.y);
    lemma_monomial_b(tv.y, d.z, e2.x, e1.y);
    lemma_monomial_b(tv.y, d.x, e2.z, e1.y);
    lemma_monomial_b(tv.z, d.x, e2.y, e1.y);
    lemma_monomial_b(tv.z, d.y, e2.x, e1.y);
    let v0 = d.x * (tv.y * e1.z);
    let v1 = d.x * (tv.z * e1.y);
    let v2 = d.y * (tv.z * e1.x);
    let v3 = d.y * (tv.x * e1.z);
    let v4 = d.z * (tv.x * e1.y);
    let v5 = d.z * (tv.y * e1.x);
    assert(d.x * (tv.y * e1.z - tv.z * e1.y) == v0 - v1) by (nonlinear_arith)
        requires
            v0 == d.x * (tv.y * e1.z),
            v1 == d.x * (tv.z * e1.y),
    ;
    assert(d.y * (tv.z * e1.x - tv.x * e1.z) == v2 - v3) by (nonlinear_arith)
        requires
            v2 == d.y * (tv.z * e1.x),
            v3 == d.y * (tv.x * e1.z),
    ;
    assert(d.z * (tv.x * e1.y - tv.y * e1.x) == v4 - v5) by (nonlinear_arith)
        requires
            v4 == d.z * (tv.x * e1.y),
            v5 == d.z * (tv.y * e1.x),
    ;
    let v = (v0 - v1) + (v2 - v3) + (v4 - v5);
    assert(v * e2.y == (v0 * e2.y - v1 * e2.y) + (v2 * e2.y - v3 * e2.y) + (v4 * e2.y - v5 * e2.y)) by (nonlinear_arith)
        requires
            v == (v0 - v1) + (v2 - v3) + (v4 - v5),
    ;
    lemma_monomial_c(d.x, tv.y, e1.z, e2.y);
    lemma_monomial_c(d.x, tv.z, e1.y, e2.y);
    lemma_monomial_c(d.y, tv.z, e1.x, e2.y);
    lemma_monomial_c(d.y, tv.x, e1.z, e2.y);
    lemma_monomial_c(d.z, tv.x, e1.y, e2.y);
    lemma_monomial_c(d.z, tv.y, e1.x, e2.y);
    let t0 = e2.x * (tv.y * e1.z);
    let t1 = e2.x * (tv.z * e1.y);
    let t2 = e2.y * (tv.z * e1.x);
    let t3 = e2.y * (tv.x * e1.z);
    let t4 = e2.z * (tv.x * e1.y);
    let t5 = e2.z * (tv.y * e1.x);
    assert(e2.x * (tv.y * e1.z - tv.z * e1.y) == t0 - t1) by (nonlinear_arith)
        requires
            t0 == e2.x * (tv.y * e1.z),
            t1 == e2.x * (tv.z * e1.y),
    ;
    assert(e2.y * (tv.z * e1.x - tv.x * e1.z) == t2 - t3) by (nonlinear_arith)
        requires
            t2 == e2.y * (tv.z * e1.x),
            t3 == e2.y * (tv.x * e1.z),
    ;
    assert(e2.z * (tv.x * e1.y - tv.y * e1.x) == t4 - t5) by (nonlinear_arith)
        requires
            t4 == e2.z * (tv.x * e1.y),
            t5 == e2.z * (tv.y * e1.x),
    ;
    let t = (t0 - t1) + (t2 - t3) + (t4 - t5);
    assert(t * d.y == (t0 * d.y - t1 * d.y) + (t2 * d.y - t3 * d.y) + (t4 * d.y - t5 * d.y)) by (nonlinear_arith)
        requires
            t == (t0 - t1) + (t2 - t3) + (t4 - t5),
    ;
    lemma_monomial_f(e2.x, tv.y, e1.z, d.y);
    lemma_monomial_f(e2.x, tv.z, e1.y, d.y);
    lemma_monomial_f(e2.y, tv.z, e1.x, d.y);
    lemma_monomial_f(e2.y, tv.x, e1.z, d.y);
    lemma_monomial_f(e2.z, tv.x, e1.y, d.y);
    lemma_monomial_f(e2.z, tv.y, e1.x, d.y);
}

proof fn lemma_cramer_z(e1: V3, e2: V3, d: V3, tv: V3)
    ensures
        e1.dot(d.cross(e2)) * tv.z == tv.dot(d.cross(e2)) * e1.z + d.dot(tv.cross(e1)) * e2.z
            - e2.dot(tv.cross(e1)) * d.z,
{
    let det0 = e1.x * (d.y * e2.z);
    let det1 = e1.x * (d.z * e2.y);
    let det2 = e1.y * (d.z * e2.x);
    let det3 = e1.y * (d.x * e2.z);
    let det4 = e1.z * (d.x * e2.y);
    let det5 = e1.z * (d.y * e2.x);
    assert(e1.x * (d.y * e2.z - d.z * e2.y) == det0 - det1) by (nonlinear_arith)
        requires
            det0 == e1.x * (d.y * e2.z),
            det1 == e1.x * (d.z * e2.y),
    ;
    assert(e1.y * (d.z * e2.x - d.x * e2.z) == det2 - det3) by (nonlinear_arith)
        requires
            det2 == e1.y * (d.z * e2.x),
            det3 == e1.y * (d.x * e2.z),
    ;
    assert(e1.z * (d.x * e2.y - d.y * e2.x) == det4 - det5) by (nonlinear_arith)
        requires
            det4 == e1.z * (d.x * e2.y),
            det5 == e1.z * (d.y * e2.x),
    ;
    let det = (det0 - det1) + (det2 - det3) + (det4 - det5);
    assert(det * tv.z == (det0 * tv.z - det1 * tv.z) + (det2 * tv.z - det3 * tv.z) + (det4 * tv.z - det5 * tv.z)) by (nonlinear_arith)
        requires
            det == (det0 - det1) + (det2 - det3) + (det4 - det5),
    ;
    lemma_monomial_a(e1.x, d.y, e2.z, tv.z);
    lemma_monomial_a(e1.x, d.z, e2.y, tv.z);
    lemma_monomial_a(e1.y, d.z, e2.x, tv.z);
    lemma_monomial_a(e1.y, d.x, e2.z, tv.z);
    lemma_monomial_a(e1.z, d.x, e2.y, tv.z);
    lemma_monomial_a(e1.z, d.y, e2.x, tv.z);
    let u0 = tv.x * (d.y * e2.z);
    let u1 = tv.x * (d.z * e2.y);
    let u2 = tv.y * (d.z * e2.x);
    let u3 = tv.y * (d.x * e2.z);
    let u4 = tv.z * (d.x * e2.y);
    let u5 = tv.z * (d.y * e2.x);
    assert(tv.x * (d.y * e2.z - d.z * e2.y) == u0 - u1) by (nonlinear_arith)
        requires
            u0 == tv.x * (d.y * e2.z),
            u1 == tv.x * (d.z * e2.y),
    ;
    assert(tv.y * (d.z * e2.x - d.x * e2.z) == u2 - u3) by (nonlinear_arith)
        requires
            u2 == tv.y * (d.z * e2.x),
            u3 == tv.y * (d.x * e2.z),
    ;
    assert(tv.z * (d.x * e2.y - d.y * e2.x) == u4 - u5) by (nonlinear_arith)
        requires
            u4 == tv.z * (d.x * e2.y),
            u5 == tv.z * (d.y * e2.x),
    ;
    let u = (u0 - u1) + (u2 - u3) + (u4 - u5);
    assert(u * e1.z == (u0 * e1.z - u1 * e1.z) + (u2 * e1.z - u3 * e1.z) + (u4 * e1.z - u5 * e1.z)) by (nonlinear_arith)
        requires
            u == (u0 - u1) + (u2 - u3) + (u4 - u5),
    ;
    lemma_monomial_b(tv.x, d.y, e2.z, e1.z);
    lemma_monomial_b(tv.x, d.z, e2.y, e1.z);
    lemma_monomial_b(tv.y, d.z, e2.x, e1.z);
    lemma_monomial_b(tv.y, d.x, e2.z, e1.z);
    lemma_monomial_b(tv.z, d.x, e2.y, e1.z);
    lemma_monomial_b(tv.z, d.y, e2.x, e1.z);
    let v0 = d.x * (tv.y * e1.z);
    let v1 = d.x * (tv.z * e1.y);
    let v2 = d.y * (tv.z * e1.x);
    let v3 = d.y * (tv.x * e1.z);
    let v4 = d.z * (tv.x * e1.y);
    let v5 = d.z * (tv.y * e1.x);
    assert(d.x * (tv.y * e1.z - tv.z * e1.y) == v0 - v1) by (nonlinear_arith)
        requires
            v0 == d.x * (tv.y * e1.z),
            v1 == d.x * (tv.z * e1.y),
    ;
    assert(d.y * (tv.z * e1.x - tv.x * e1.z) == v2 - v3) by (nonlinear_arith)
        requires
            v2 == d.y * (tv.z * e1.x),
            v3 == d.y * (tv.x * e1.z),
    ;
    assert(d.z * (tv.x * e1.y - tv.y * e1.x) == v4 - v5) by (nonlinear_arith)
        requires
            v4 == d.z * (tv.x * e1.y),
            v5 == d.z * (tv.y * e1.x),
    ;
    let v = (v0 - v1) + (v2 - v3) + (v4 - v5);
    assert(v * e2.z == (v0 * e2.z - v1 * e2.z) + (v2 * e2.z - v3 * e2.z) + (v4 * e2.z - v5 * e2.z)) by (nonlinear_arith)
        requires
            v == (v0 - v1) + (v2 - v3) + (v4 - v5),
    ;
    lemma_monomial_c(d.x, tv.y, e1.z, e2.z);
    lemma_monomial_c(d.x, tv.z, e1.y, e2.z);
    lemma_monomial_c(d.y, tv.z, e1.x, e2.z);
    lemma_monomial_c(d.y, tv.x, e1.z, e2.z);
    lemma_monomial_c(d.z, tv.x, e1.y, e2.z);
    lemma_monomial_c(d.z, tv.y, e1.x, e2.z);
    let t0 = e2.x * (tv.y * e1.z);
    let t1 = e2.x * (tv.z * e1.y);
    let t2 = e2.y * (tv.z * e1.x);
    let t3 = e2.y * (tv.x * e1.z);
    let t4 = e2.z * (tv.x * e1.y);
    let t5 = e2.z * (tv.y * e1.x);
    assert(e2.x * (tv.y * e1.z - tv.z * e1.y) == t0 - t1) by (nonlinear_arith)
        requires
            t0 == e2.x * (tv.y * e1.z),
            t1 == e2.x * (tv.z * e1.y),
    ;
    assert(e2.y * (tv.z * e1.x - tv.x * e1.z) == t2 - t3) by (nonlinear_arith)
        requires
            t2 == e2.y * (tv.z * e1.x),
            t3 == e2.y * (tv.x * e1.z),
    ;
    assert(e2.z * (tv.x * e1.y - tv.y * e1.x) == t4 - t5) by (nonlinear_arith)
        requires
            t4 == e2.z * (tv.x * e1.y),
            t5 == e2.z * (tv.y * e1.x),
    ;
    let t = (t0 - t1) + (t2 - t3) + (t4 - t5);
    assert(t * d.z == (t0 * d.z - t1 * d.z) + (t2 * d.z - t3 * d.z) + (t4 * d.z - t5 * d.z)) by (nonlinear_arith)
        requires
            t == (t0 - t1) + (t2 - t3) + (t4 - t5),
    ;
    lemma_monomial_f(e2.x, tv.y, e1.z, d.z);
    lemma_monomial_f(e2.x, tv.z, e1.y, d.z);
    lemma_monomial_f(e2.y, tv.z, e1.x, d.z);
    lemma_monomial_f(e2.y, tv.x, e1.z, d.z);
    lemma_monomial_f(e2.z, tv.x, e1.y, d.z);
    lemma_monomial_f(e2.z, tv.y, e1.x, d.z);
}

/// Cramer's rule: with `det` the triple product of `e1`, `d` and `e2`,
/// the vector `det * tv` is a combination of `e1`, `e2` and `d` whose
/// weights are triple products too.
pub proof fn lemma_cramer(e1: V3, e2: V3, d: V3, tv: V3)
    ensures
        e1.dot(d.cross(e2)) * tv.x == tv.dot(d.cross(e2)) * e1.x + d.dot(tv.cross(e1)) * e2.x
            - e2.dot(tv.cross(e1)) * d.x,
        e1.dot(d.cross(e2)) * tv.y == tv.dot(d.cross(e2)) * e1.y + d.dot(tv.cross(e1)) * e2.y
            - e2.dot(tv.cross(e1)) * d.y,
        e1.dot(d.cross(e2)) * tv.z == tv.dot(d.cross(e2)) * e1.z + d.dot(tv.cross(e1)) * e2.z
            - e2.dot(tv.cross(e1)) * d.z,
{
    lemma_cramer_x(e1, e2, d, tv);
    lemma_cramer_y(e1, e2, d, tv);
    lemma_cramer_z(e1, e2, d, tv);
}

} // verus!
