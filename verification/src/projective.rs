//! Points in Jacobian coordinates `(X, Y, Z)`, standing for the affine point
//! `(X/Z^2, Y/Z^3)`; `Z = 0` is the point at infinity.
use vstd::prelude::*;
use crate::field::{add_mod, mul_mod, sub_mod};
use crate::affine::Affine;
use crate::field::neg_mod;
use crate::group_law::{
    jac_add, jac_chord, jac_double, jac_to_aff, lemma_add_step, lemma_chord_cong,
    lemma_cross_compare, lemma_mul_step, lemma_sub_step, Jac,
};
use vstd::arithmetic::div_mod::lemma_small_mod;
use crate::modular::{lemma_cong_mod, lemma_cong_reduced};
use crate::params::SWParams;

verus! {

/// Jacobian coordinates for a point on a short Weierstrass curve.
#[derive(Clone, Copy, Debug, Hash)]
pub struct Projective {
    pub x: u64,
    pub y: u64,
    pub z: u64,
}

impl Projective {
    /// The coordinates as integers.
    pub open spec fn jac(self) -> Jac {
        (self.x as int, self.y as int, self.z as int)
    }

    /// Every coordinate is a residue below `p`.
    pub open spec fn is_reduced(self, p: int) -> bool {
        &&& self.x < p
        &&& self.y < p
        &&& self.z < p
    }

    /// Builds a point from its coordinates without checking them.
    pub fn new(x: u64, y: u64, z: u64) -> (r: Self)
        ensures
            r.x == x,
            r.y == y,
            r.z == z,
    {
        Projective { x, y, z }
    }

    /// Doubles `self` in place with the Jacobian doubling formulas; the formulas for
    /// `a = 0` (dbl-2009-l) and for any `a` (dbl-2007-bl) give the same coordinates.
    pub fn double_in_place(&mut self, params: &SWParams)
        requires
            params.wf(),
            old(self).is_reduced(params.p()),
        ensures
            final(self).jac() == jac_double(params.p(), params.a(), old(self).jac()),
            final(self).is_reduced(params.p()),
    {
        if self.z == 0 {
            proof {
                vstd::arithmetic::div_mod::lemma_small_mod(0, params.p() as nat);
            }
            return;
        }
        let p = params.modulus;
        let ghost m = p as int;
        let ghost (xx0, yy0, zz0) = (self.x as int, self.y as int, self.z as int);
        let ghost s_spec = 4 * xx0 * (yy0 * yy0);
        let ghost m_spec = 3 * (xx0 * xx0) + params.a() * ((zz0 * zz0) * (zz0 * zz0));
        let ghost x3_spec = m_spec * m_spec - 2 * s_spec;
        let ghost y3_spec = m_spec * (s_spec - x3_spec) - 8 * ((yy0 * yy0) * (yy0 * yy0));
        let ghost z3_spec = 2 * yy0 * zz0;
        proof {
            vstd::arithmetic::div_mod::lemma_small_mod(zz0 as nat, m as nat);
        }
        if params.coeff_a == 0 {
            // A = X^2, B = Y^2, C = B^2
            let a0 = mul_mod(p, self.x, self.x);
            let b0 = mul_mod(p, self.y, self.y);
            let c0 = mul_mod(p, b0, b0);
            // D = 2((X + B)^2 - A - C)
            let xb = add_mod(p, self.x, b0);
            let xb2 = mul_mod(p, xb, xb);
            let d1 = sub_mod(p, xb2, a0);
            let d2 = sub_mod(p, d1, c0);
            let d = add_mod(p, d2, d2);
            // E = 3A, F = E^2
            let a2 = add_mod(p, a0, a0);
            let e = add_mod(p, a0, a2);
            let f = mul_mod(p, e, e);
            // Z3 = 2 Y Z
            let zy = mul_mod(p, self.z, self.y);
            let z3 = add_mod(p, zy, zy);
            // X3 = F - 2D
            let fd = sub_mod(p, f, d);
            let x3 = sub_mod(p, fd, d);
            // Y3 = E (D - X3) - 8C
            let c2 = add_mod(p, c0, c0);
            let c4 = add_mod(p, c2, c2);
            let c8 = add_mod(p, c4, c4);
            let dx = sub_mod(p, d, x3);
            let dxe = mul_mod(p, dx, e);
            let y3 = sub_mod(p, dxe, c8);
            proof {
                let pa = xx0 * xx0;
                let pb = yy0 * yy0;
                let pc = pb * pb;
                let pd = 2 * ((xx0 + pb) * (xx0 + pb) - pa - pc);
                let pe = pa + (pa + pa);
                let pf = pe * pe;
                let px3 = pf - pd - pd;
                let py3 = (pd - px3) * pe - (((pc + pc) + (pc + pc)) + ((pc + pc) + (pc + pc)));
                let pz3 = zz0 * yy0 + zz0 * yy0;
                lemma_mul_step(m, xx0, xx0, xx0, xx0);
                lemma_mul_step(m, yy0, yy0, yy0, yy0);
                lemma_mul_step(m, b0 as int, b0 as int, pb, pb);
                lemma_add_step(m, xx0, b0 as int, xx0, pb);
                lemma_mul_step(m, xb as int, xb as int, xx0 + pb, xx0 + pb);
                lemma_sub_step(m, xb2 as int, a0 as int, (xx0 + pb) * (xx0 + pb), pa);
                lemma_sub_step(m, d1 as int, c0 as int, (xx0 + pb) * (xx0 + pb) - pa, pc);
                lemma_add_step(m, d2 as int, d2 as int, (xx0 + pb) * (xx0 + pb) - pa - pc, (xx0 + pb) * (xx0 + pb) - pa - pc);
                lemma_add_step(m, a0 as int, a0 as int, pa, pa);
                lemma_add_step(m, a0 as int, a2 as int, pa, pa + pa);
                lemma_mul_step(m, e as int, e as int, pe, pe);
                lemma_mul_step(m, zz0, yy0, zz0, yy0);
                lemma_add_step(m, zy as int, zy as int, zz0 * yy0, zz0 * yy0);
                lemma_sub_step(m, f as int, d as int, pf, pd);
                lemma_sub_step(m, fd as int, d as int, pf - pd, pd);
                lemma_add_step(m, c0 as int, c0 as int, pc, pc);
                lemma_add_step(m, c2 as int, c2 as int, pc + pc, pc + pc);
                lemma_add_step(m, c4 as int, c4 as int, (pc + pc) + (pc + pc), (pc + pc) + (pc + pc));
                lemma_sub_step(m, d as int, x3 as int, pd, px3);
                lemma_mul_step(m, dx as int, e as int, pd - px3, pe);
                lemma_sub_step(m, dxe as int, c8 as int, (pd - px3) * pe, ((pc + pc) + (pc + pc)) + ((pc + pc) + (pc + pc)));
                // the polynomials agree with the formulas
                assert(pd == s_spec) by (nonlinear_arith)
                    requires
                        pd == 2 * ((xx0 + pb) * (xx0 + pb) - pa - pc),
                        pa == xx0 * xx0,
                        pb == yy0 * yy0,
                        pc == pb * pb,
                        s_spec == 4 * xx0 * (yy0 * yy0),
                ;
                assert(params.a() * ((zz0 * zz0) * (zz0 * zz0)) == 0) by (nonlinear_arith)
                    requires
                        params.a() == 0,
                ;
                assert(pe == m_spec);
                assert(px3 == x3_spec);
                assert(py3 == y3_spec) by (nonlinear_arith)
                    requires
                        py3 == (pd - px3) * pe - (((pc + pc) + (pc + pc)) + ((pc + pc) + (pc + pc))),
                        pd == s_spec,
                        pe == m_spec,
                        px3 == x3_spec,
                        pc == pb * pb,
                        pb == yy0 * yy0,
                        y3_spec == m_spec * (s_spec - x3_spec) - 8 * ((yy0 * yy0) * (yy0 * yy0)),
                ;
                assert(pz3 == z3_spec) by (nonlinear_arith)
                    requires
                        pz3 == zz0 * yy0 + zz0 * yy0,
                        z3_spec == 2 * yy0 * zz0,
                ;
                lemma_cong_reduced(m, x3 as int, x3_spec);
                lemma_cong_reduced(m, y3 as int, y3_spec);
                lemma_cong_reduced(m, z3 as int, z3_spec);
            }
            self.x = x3;
            self.y = y3;
            self.z = z3;
        } else {
            // XX = X^2, YY = Y^2, YYYY = YY^2, ZZ = Z^2
            let xx = mul_mod(p, self.x, self.x);
            let yy = mul_mod(p, self.y, self.y);
            let yyyy = mul_mod(p, yy, yy);
            let zz = mul_mod(p, self.z, self.z);
            // S = 2((X + YY)^2 - XX - YYYY)
            let xyy = add_mod(p, self.x, yy);
            let xyy2 = mul_mod(p, xyy, xyy);
            let s1 = sub_mod(p, xyy2, xx);
            let s2 = sub_mod(p, s1, yyyy);
            let s = add_mod(p, s2, s2);
            // M = 3 XX + a ZZ^2
            let zzzz = mul_mod(p, zz, zz);
            let azz = mul_mod(p, params.coeff_a, zzzz);
            let xx2 = add_mod(p, xx, xx);
            let xx3 = add_mod(p, xx2, xx);
            let mm = add_mod(p, xx3, azz);
            // T = M^2 - 2S
            let mm2 = mul_mod(p, mm, mm);
            let s_2 = add_mod(p, s, s);
            let t = sub_mod(p, mm2, s_2);
            // Y3 = M (S - T) - 8 YYYY
            let st = sub_mod(p, s, t);
            let mst = mul_mod(p, mm, st);
            let y2 = add_mod(p, yyyy, yyyy);
            let y4 = add_mod(p, y2, y2);
            let y8 = add_mod(p, y4, y4);
            let y3 = sub_mod(p, mst, y8);
            // Z3 = (Y + Z)^2 - YY - ZZ
            let yz = add_mod(p, self.y, self.z);
            let yz2 = mul_mod(p, yz, yz);
            let z1 = sub_mod(p, yz2, yy);
            let z3 = sub_mod(p, z1, zz);
            proof {
                let ca = params.a();
                let pxx = xx0 * xx0;
                let pyy = yy0 * yy0;
                let pyyyy = pyy * pyy;
                let pzz = zz0 * zz0;
                let ps = ((xx0 + pyy) * (xx0 + pyy) - pxx - pyyyy) + ((xx0 + pyy) * (xx0 + pyy) - pxx - pyyyy);
                let pm = ((pxx + pxx) + pxx) + ca * (pzz * pzz);
                let pt = pm * pm - (ps + ps);
                let p8 = ((pyyyy + pyyyy) + (pyyyy + pyyyy)) + ((pyyyy + pyyyy) + (pyyyy + pyyyy));
                let py3 = pm * (ps - pt) - p8;
                let pz3 = (yy0 + zz0) * (yy0 + zz0) - pyy - pzz;
                lemma_mul_step(m, xx0, xx0, xx0, xx0);
                lemma_mul_step(m, yy0, yy0, yy0, yy0);
                lemma_mul_step(m, yy as int, yy as int, pyy, pyy);
                lemma_mul_step(m, zz0, zz0, zz0, zz0);
                lemma_add_step(m, xx0, yy as int, xx0, pyy);
                lemma_mul_step(m, xyy as int, xyy as int, xx0 + pyy, xx0 + pyy);
                lemma_sub_step(m, xyy2 as int, xx as int, (xx0 + pyy) * (xx0 + pyy), pxx);
                lemma_sub_step(m, s1 as int, yyyy as int, (xx0 + pyy) * (xx0 + pyy) - pxx, pyyyy);
                lemma_add_step(m, s2 as int, s2 as int, (xx0 + pyy) * (xx0 + pyy) - pxx - pyyyy, (xx0 + pyy) * (xx0 + pyy) - pxx - pyyyy);
                lemma_mul_step(m, zz as int, zz as int, pzz, pzz);
                lemma_mul_step(m, ca, zzzz as int, ca, pzz * pzz);
                lemma_add_step(m, xx as int, xx as int, pxx, pxx);
                lemma_add_step(m, xx2 as int, xx as int, pxx + pxx, pxx);
                lemma_add_step(m, xx3 as int, azz as int, (pxx + pxx) + pxx, ca * (pzz * pzz));
                lemma_mul_step(m, mm as int, mm as int, pm, pm);
                lemma_add_step(m, s as int, s as int, ps, ps);
                lemma_sub_step(m, mm2 as int, s_2 as int, pm * pm, ps + ps);
                lemma_sub_step(m, s as int, t as int, ps, pt);
                lemma_mul_step(m, mm as int, st as int, pm, ps - pt);
                lemma_add_step(m, yyyy as int, yyyy as int, pyyyy, pyyyy);
                lemma_add_step(m, y2 as int, y2 as int, pyyyy + pyyyy, pyyyy + pyyyy);
                lemma_add_step(m, y4 as int, y4 as int, (pyyyy + pyyyy) + (pyyyy + pyyyy), (pyyyy + pyyyy) + (pyyyy + pyyyy));
                lemma_sub_step(m, mst as int, y8 as int, pm * (ps - pt), p8);
                lemma_add_step(m, yy0, zz0, yy0, zz0);
                lemma_mul_step(m, yz as int, yz as int, yy0 + zz0, yy0 + zz0);
                lemma_sub_step(m, yz2 as int, yy as int, (yy0 + zz0) * (yy0 + zz0), pyy);
                lemma_sub_step(m, z1 as int, zz as int, (yy0 + zz0) * (yy0 + zz0) - pyy, pzz);
                assert(ps == s_spec) by (nonlinear_arith)
                    requires
                        ps == ((xx0 + pyy) * (xx0 + pyy) - pxx - pyyyy) + ((xx0 + pyy) * (xx0 + pyy) - pxx - pyyyy),
                        pxx == xx0 * xx0,
                        pyy == yy0 * yy0,
                        pyyyy == pyy * pyy,
                        s_spec == 4 * xx0 * (yy0 * yy0),
                ;
                assert(pm == m_spec);
                assert(pt == x3_spec);
                assert(py3 == y3_spec) by (nonlinear_arith)
                    requires
                        py3 == pm * (ps - pt) - p8,
                        p8 == ((pyyyy + pyyyy) + (pyyyy + pyyyy)) + ((pyyyy + pyyyy) + (pyyyy + pyyyy)),
                        pyyyy == pyy * pyy,
                        pyy == yy0 * yy0,
                        ps == s_spec,
                        pm == m_spec,
                        pt == x3_spec,
                        y3_spec == m_spec * (s_spec - x3_spec) - 8 * ((yy0 * yy0) * (yy0 * yy0)),
                ;
                assert(pz3 == z3_spec) by (nonlinear_arith)
                    requires
                        pz3 == (yy0 + zz0) * (yy0 + zz0) - pyy - pzz,
                        pyy == yy0 * yy0,
                        pzz == zz0 * zz0,
                        z3_spec == 2 * yy0 * zz0,
                ;
                lemma_cong_reduced(m, t as int, x3_spec);
                lemma_cong_reduced(m, y3 as int, y3_spec);
                lemma_cong_reduced(m, z3 as int, z3_spec);
            }
            self.x = t;
            self.y = y3;
            self.z = z3;
        }
    }

    /// The chord step of mixed addition (madd-2007-bl) on reduced inputs, where `u2`
    /// and `s2` are the residues of `X2 Z1^2` and `Y2 Z1^3`.
    fn madd_chord(&mut self, params: &SWParams, z1z1: u64, u2: u64, s2: u64)
        requires
            params.wf(),
            old(self).is_reduced(params.p()),
            z1z1 < params.p(),
            u2 < params.p(),
            s2 < params.p(),
            z1z1 == (old(self).z * old(self).z) % params.p(),
        ensures
            final(self).jac() == jac_chord(
                params.p(),
                old(self).z as int,
                1,
                old(self).x as int,
                u2 as int,
                old(self).y as int,
                s2 as int,
            ),
            final(self).is_reduced(params.p()),
    {
        let p = params.modulus;
        let ghost m = p as int;
        let ghost (x1, y1, z1) = (self.x as int, self.y as int, self.z as int);
        // H = U2 - X1, HH = H^2, I = 4 HH, J = H I
        let h = sub_mod(p, u2, self.x);
        let hh = mul_mod(p, h, h);
        let i2 = add_mod(p, hh, hh);
        let i = add_mod(p, i2, i2);
        let j = mul_mod(p, h, i);
        // r = 2 (S2 - Y1), V = X1 I
        let r1 = sub_mod(p, s2, self.y);
        let r = add_mod(p, r1, r1);
        let v = mul_mod(p, self.x, i);
        // X3 = r^2 - J - 2V
        let r2 = mul_mod(p, r, r);
        let x3a = sub_mod(p, r2, j);
        let x3b = sub_mod(p, x3a, v);
        let x3 = sub_mod(p, x3b, v);
        // Y3 = r (V - X3) - 2 Y1 J
        let jy = mul_mod(p, j, self.y);
        let jy2 = add_mod(p, jy, jy);
        let vx = sub_mod(p, v, x3);
        let vxr = mul_mod(p, vx, r);
        let y3 = sub_mod(p, vxr, jy2);
        // Z3 = (Z1 + H)^2 - Z1Z1 - HH
        let zh = add_mod(p, self.z, h);
        let zh2 = mul_mod(p, zh, zh);
        let z3a = sub_mod(p, zh2, z1z1);
        let z3 = sub_mod(p, z3a, hh);
        proof {
            let ph = u2 - x1;
            let phh = ph * ph;
            let pi = (phh + phh) + (phh + phh);
            let pj = ph * pi;
            let pr = (s2 - y1) + (s2 - y1);
            let pv = x1 * pi;
            let px3 = pr * pr - pj - pv - pv;
            let py3 = (pv - px3) * pr - (pj * y1 + pj * y1);
            let pz3 = (z1 + ph) * (z1 + ph) - z1 * z1 - phh;
            lemma_sub_step(m, u2 as int, x1, u2 as int, x1);
            lemma_mul_step(m, h as int, h as int, ph, ph);
            lemma_add_step(m, hh as int, hh as int, phh, phh);
            lemma_add_step(m, i2 as int, i2 as int, phh + phh, phh + phh);
            lemma_mul_step(m, h as int, i as int, ph, pi);
            lemma_sub_step(m, s2 as int, y1, s2 as int, y1);
            lemma_add_step(m, r1 as int, r1 as int, s2 - y1, s2 - y1);
            lemma_mul_step(m, x1, i as int, x1, pi);
            lemma_mul_step(m, r as int, r as int, pr, pr);
            lemma_sub_step(m, r2 as int, j as int, pr * pr, pj);
            lemma_sub_step(m, x3a as int, v as int, pr * pr - pj, pv);
            lemma_sub_step(m, x3b as int, v as int, pr * pr - pj - pv, pv);
            lemma_mul_step(m, j as int, y1, pj, y1);
            lemma_add_step(m, jy as int, jy as int, pj * y1, pj * y1);
            lemma_sub_step(m, v as int, x3 as int, pv, px3);
            lemma_mul_step(m, vx as int, r as int, pv - px3, pr);
            lemma_sub_step(m, vxr as int, jy2 as int, (pv - px3) * pr, pj * y1 + pj * y1);
            lemma_add_step(m, z1, h as int, z1, ph);
            lemma_mul_step(m, zh as int, zh as int, z1 + ph, z1 + ph);
            lemma_cong_mod(m, z1 * z1);
            lemma_sub_step(m, zh2 as int, z1z1 as int, (z1 + ph) * (z1 + ph), z1 * z1);
            lemma_sub_step(m, z3a as int, hh as int, (z1 + ph) * (z1 + ph) - z1 * z1, phh);
            // agreement with the chord formulas
            let si = (2 * ph) * (2 * ph);
            let sj = ph * si;
            let sr = 2 * (s2 - y1);
            let sv = x1 * si;
            let sx3 = sr * sr - sj - 2 * sv;
            assert(pi == si) by (nonlinear_arith)
                requires
                    pi == (phh + phh) + (phh + phh),
                    phh == ph * ph,
                    si == (2 * ph) * (2 * ph),
            ;
            assert(px3 == sx3);
            assert(py3 == sr * (sv - sx3) - 2 * y1 * sj) by (nonlinear_arith)
                requires
                    py3 == (pv - px3) * pr - (pj * y1 + pj * y1),
                    pv == sv,
                    px3 == sx3,
                    pr == sr,
                    pj == sj,
            ;
            assert(pz3 == 2 * z1 * 1 * ph) by (nonlinear_arith)
                requires
                    pz3 == (z1 + ph) * (z1 + ph) - z1 * z1 - phh,
                    phh == ph * ph,
            ;
            lemma_cong_reduced(m, x3 as int, sx3);
            lemma_cong_reduced(m, y3 as int, py3);
            lemma_cong_reduced(m, z3 as int, pz3);
        }
        self.x = x3;
        self.y = y3;
        self.z = z3;
    }

    /// Adds an affine point to `self` in place with the mixed addition formulas
    /// (madd-2007-bl): the result is the Jacobian sum with `(x, y, 1)`.
    pub fn add_unique_in_place(&mut self, other: &Affine, params: &SWParams)
        requires
            params.wf(),
            old(self).is_reduced(params.p()),
            other.is_reduced(params.p()),
        ensures
            final(self).jac() == (if other.infinity {
                old(self).jac()
            } else {
                jac_add(params.p(), params.a(), old(self).jac(), other.jac_one())
            }),
            final(self).is_reduced(params.p()),
    {
        if other.infinity {
            return;
        }
        let ghost m = params.p();
        proof {
            lemma_small_mod(1, m as nat);
            lemma_small_mod(0, m as nat);
        }
        if self.z == 0 {
            self.x = other.x;
            self.y = other.y;
            self.z = 1;
            return;
        }
        let p = params.modulus;
        let ghost (x1, y1, z1, x2, y2) = (
            self.x as int,
            self.y as int,
            self.z as int,
            other.x as int,
            other.y as int,
        );
        // Z1Z1 = Z1^2, U2 = X2 Z1Z1, S2 = Y2 Z1 Z1Z1
        let z1z1 = mul_mod(p, self.z, self.z);
        let u2 = mul_mod(p, other.x, z1z1);
        let yz = mul_mod(p, other.y, self.z);
        let s2 = mul_mod(p, yz, z1z1);
        proof {
            lemma_small_mod(z1 as nat, m as nat);
            lemma_small_mod(x1 as nat, m as nat);
            lemma_small_mod(y1 as nat, m as nat);
            lemma_mul_step(m, z1, z1, z1, z1);
            lemma_mul_step(m, x2, z1z1 as int, x2, z1 * z1);
            lemma_mul_step(m, y2, z1, y2, z1);
            lemma_mul_step(m, yz as int, z1z1 as int, y2 * z1, z1 * z1);
            lemma_cong_reduced(m, u2 as int, x2 * (z1 * z1));
            lemma_cong_reduced(m, s2 as int, y2 * z1 * (z1 * z1));
            assert(x1 * (1 * 1) == x1 && y1 * 1 * (1 * 1) == y1) by (nonlinear_arith);
        }
        if self.x == u2 && self.y == s2 {
            self.double_in_place(params);
        } else {
            self.madd_chord(params, z1z1, u2, s2);
            proof {
                lemma_chord_cong(
                    m,
                    z1,
                    1,
                    x1,
                    u2 as int,
                    y1,
                    s2 as int,
                    z1,
                    1,
                    x1 * (1 * 1),
                    x2 * (z1 * z1),
                    y1 * 1 * (1 * 1),
                    y2 * z1 * (z1 * z1),
                );
            }
        }
    }

    /// The chord step of Jacobian addition (add-2007-bl) on reduced inputs.
    fn add_chord(
        &mut self,
        params: &SWParams,
        other: &Projective,
        z1z1: u64,
        z2z2: u64,
        u1: u64,
        u2: u64,
        s1: u64,
        s2: u64,
    )
        requires
            params.wf(),
            old(self).is_reduced(params.p()),
            other.is_reduced(params.p()),
            z1z1 == (old(self).z * old(self).z) % params.p(),
            z2z2 == (other.z * other.z) % params.p(),
            u1 < params.p(),
            u2 < params.p(),
            s1 < params.p(),
            s2 < params.p(),
        ensures
            final(self).jac() == jac_chord(
                params.p(),
                old(self).z as int,
                other.z as int,
                u1 as int,
                u2 as int,
                s1 as int,
                s2 as int,
            ),
            final(self).is_reduced(params.p()),
    {
        let p = params.modulus;
        let ghost m = p as int;
        let ghost (z1, z2) = (self.z as int, other.z as int);
        // H = U2 - U1, I = (2H)^2, J = H I
        let h = sub_mod(p, u2, u1);
        let h2 = add_mod(p, h, h);
        let i = mul_mod(p, h2, h2);
        let j = mul_mod(p, h, i);
        // r = 2 (S2 - S1), V = U1 I
        let r1 = sub_mod(p, s2, s1);
        let r = add_mod(p, r1, r1);
        let v = mul_mod(p, u1, i);
        // X3 = r^2 - J - 2V
        let r2 = mul_mod(p, r, r);
        let x3a = sub_mod(p, r2, j);
        let v2 = add_mod(p, v, v);
        let x3 = sub_mod(p, x3a, v2);
        // Y3 = r (V - X3) - 2 S1 J
        let vx = sub_mod(p, v, x3);
        let rvx = mul_mod(p, r, vx);
        let s1j = mul_mod(p, s1, j);
        let s1j2 = add_mod(p, s1j, s1j);
        let y3 = sub_mod(p, rvx, s1j2);
        // Z3 = ((Z1 + Z2)^2 - Z1Z1 - Z2Z2) H
        let zs = add_mod(p, self.z, other.z);
        let zs2 = mul_mod(p, zs, zs);
        let za = sub_mod(p, zs2, z1z1);
        let zb = sub_mod(p, za, z2z2);
        let z3 = mul_mod(p, zb, h);
        proof {
            let (pu1, pu2, ps1, ps2) = (u1 as int, u2 as int, s1 as int, s2 as int);
            let ph = pu2 - pu1;
            let pi = (ph + ph) * (ph + ph);
            let pj = ph * pi;
            let pr = (ps2 - ps1) + (ps2 - ps1);
            let pv = pu1 * pi;
            let px3 = pr * pr - pj - (pv + pv);
            let py3 = pr * (pv - px3) - (ps1 * pj + ps1 * pj);
            let pz3 = ((z1 + z2) * (z1 + z2) - z1 * z1 - z2 * z2) * ph;
            lemma_sub_step(m, pu2, pu1, pu2, pu1);
            lemma_add_step(m, h as int, h as int, ph, ph);
            lemma_mul_step(m, h2 as int, h2 as int, ph + ph, ph + ph);
            lemma_mul_step(m, h as int, i as int, ph, pi);
            lemma_sub_step(m, ps2, ps1, ps2, ps1);
            lemma_add_step(m, r1 as int, r1 as int, ps2 - ps1, ps2 - ps1);
            lemma_mul_step(m, pu1, i as int, pu1, pi);
            lemma_mul_step(m, r as int, r as int, pr, pr);
            lemma_sub_step(m, r2 as int, j as int, pr * pr, pj);
            lemma_add_step(m, v as int, v as int, pv, pv);
            lemma_sub_step(m, x3a as int, v2 as int, pr * pr - pj, pv + pv);
            lemma_sub_step(m, v as int, x3 as int, pv, px3);
            lemma_mul_step(m, r as int, vx as int, pr, pv - px3);
            lemma_mul_step(m, ps1, j as int, ps1, pj);
            lemma_add_step(m, s1j as int, s1j as int, ps1 * pj, ps1 * pj);
            lemma_sub_step(m, rvx as int, s1j2 as int, pr * (pv - px3), ps1 * pj + ps1 * pj);
            lemma_add_step(m, z1, z2, z1, z2);
            lemma_mul_step(m, zs as int, zs as int, z1 + z2, z1 + z2);
            lemma_cong_mod(m, z1 * z1);
            lemma_cong_mod(m, z2 * z2);
            lemma_sub_step(m, zs2 as int, z1z1 as int, (z1 + z2) * (z1 + z2), z1 * z1);
            lemma_sub_step(m, za as int, z2z2 as int, (z1 + z2) * (z1 + z2) - z1 * z1, z2 * z2);
            lemma_mul_step(m, zb as int, h as int, (z1 + z2) * (z1 + z2) - z1 * z1 - z2 * z2, ph);
            // agreement with the chord formulas
            let si = (2 * ph) * (2 * ph);
            let sr = 2 * (ps2 - ps1);
            assert(pi == si);
            assert(pr == sr);
            assert(px3 == pr * pr - pj - 2 * pv);
            assert(py3 == pr * (pv - px3) - 2 * ps1 * pj) by (nonlinear_arith)
                requires
                    py3 == pr * (pv - px3) - (ps1 * pj + ps1 * pj),
            ;
            assert(pz3 == 2 * z1 * z2 * ph) by (nonlinear_arith)
                requires
                    pz3 == ((z1 + z2) * (z1 + z2) - z1 * z1 - z2 * z2) * ph,
            ;
            lemma_cong_reduced(m, x3 as int, px3);
            lemma_cong_reduced(m, y3 as int, py3);
            lemma_cong_reduced(m, z3 as int, pz3);
        }
        self.x = x3;
        self.y = y3;
        self.z = z3;
    }

    /// Adds `other` to `self` in place with the Jacobian addition formulas (add-2007-bl).
    pub fn add_assign(&mut self, other: &Projective, params: &SWParams)
        requires
            params.wf(),
            old(self).is_reduced(params.p()),
            other.is_reduced(params.p()),
        ensures
            final(self).jac() == jac_add(params.p(), params.a(), old(self).jac(), other.jac()),
            final(self).is_reduced(params.p()),
    {
        let ghost m = params.p();
        proof {
            lemma_small_mod(0, m as nat);
        }
        if self.z == 0 {
            *self = *other;
            return;
        }
        if other.z == 0 {
            proof {
                lemma_small_mod(self.z as nat, m as nat);
            }
            return;
        }
        let p = params.modulus;
        let ghost (x1, y1, z1, x2, y2, z2) = (
            self.x as int,
            self.y as int,
            self.z as int,
            other.x as int,
            other.y as int,
            other.z as int,
        );
        // Z1Z1 = Z1^2, Z2Z2 = Z2^2, U1 = X1 Z2Z2, U2 = X2 Z1Z1, S1 = Y1 Z2 Z2Z2, S2 = Y2 Z1 Z1Z1
        let z1z1 = mul_mod(p, self.z, self.z);
        let z2z2 = mul_mod(p, other.z, other.z);
        let u1 = mul_mod(p, self.x, z2z2);
        let u2 = mul_mod(p, other.x, z1z1);
        let yz1 = mul_mod(p, self.y, other.z);
        let s1 = mul_mod(p, yz1, z2z2);
        let yz2 = mul_mod(p, other.y, self.z);
        let s2 = mul_mod(p, yz2, z1z1);
        proof {
            lemma_small_mod(z1 as nat, m as nat);
            lemma_small_mod(z2 as nat, m as nat);
            lemma_mul_step(m, z1, z1, z1, z1);
            lemma_mul_step(m, z2, z2, z2, z2);
            lemma_mul_step(m, x1, z2z2 as int, x1, z2 * z2);
            lemma_mul_step(m, x2, z1z1 as int, x2, z1 * z1);
            lemma_mul_step(m, y1, z2, y1, z2);
            lemma_mul_step(m, yz1 as int, z2z2 as int, y1 * z2, z2 * z2);
            lemma_mul_step(m, y2, z1, y2, z1);
            lemma_mul_step(m, yz2 as int, z1z1 as int, y2 * z1, z1 * z1);
            lemma_cong_reduced(m, u1 as int, x1 * (z2 * z2));
            lemma_cong_reduced(m, u2 as int, x2 * (z1 * z1));
            lemma_cong_reduced(m, s1 as int, y1 * z2 * (z2 * z2));
            lemma_cong_reduced(m, s2 as int, y2 * z1 * (z1 * z1));
        }
        if u1 == u2 && s1 == s2 {
            self.double_in_place(params);
        } else {
            self.add_chord(params, other, z1z1, z2z2, u1, u2, s1, s2);
            proof {
                lemma_chord_cong(
                    m,
                    z1,
                    z2,
                    u1 as int,
                    u2 as int,
                    s1 as int,
                    s2 as int,
                    z1,
                    z2,
                    x1 * (z2 * z2),
                    x2 * (z1 * z1),
                    y1 * z2 * (z2 * z2),
                    y2 * z1 * (z1 * z1),
                );
            }
        }
    }

    /// The point at infinity as it is represented: `(1, 1, 0)`.
    pub open spec fn spec_zero() -> Self {
        Projective { x: 1, y: 1, z: 0 }
    }

    /// The point at infinity, which always has `Z = 0`.
    pub fn zero() -> (r: Self)
        ensures
            r == Self::spec_zero(),
    {
        Projective { x: 1, y: 1, z: 0 }
    }

    /// `self` is the point at infinity: `Z` is zero.
    pub fn is_zero(&self) -> (r: bool)
        ensures
            r == (self.z == 0),
    {
        self.z == 0
    }

    /// `self` can be turned into affine coordinates without an inversion: it is the
    /// point at infinity or `Z` is one.
    pub fn is_normalized(&self) -> (r: bool)
        ensures
            r == (self.z == 0 || self.z == 1),
    {
        self.z == 0 || self.z == 1
    }

    /// The Jacobian coordinates of an affine point: `(x, y, 1)`, or `(1, 1, 0)` for the
    /// point at infinity.
    pub fn from_affine(a: &Affine) -> (r: Self)
        ensures
            r == (if a.infinity {
                Self::spec_zero()
            } else {
                Projective { x: a.x, y: a.y, z: 1 }
            }),
    {
        if a.infinity {
            Self::zero()
        } else {
            Projective { x: a.x, y: a.y, z: 1 }
        }
    }

    /// Negation: `(X, Y, Z)` becomes `(X, -Y, Z)`; the point at infinity is kept.
    pub fn neg(self, params: &SWParams) -> (r: Self)
        requires
            params.wf(),
            self.is_reduced(params.p()),
        ensures
            r == (if self.z == 0 {
                self
            } else {
                Projective { x: self.x, y: ((-self.y) % params.p()) as u64, z: self.z }
            }),
            r.is_reduced(params.p()),
    {
        if self.z != 0 {
            proof {
                vstd::arithmetic::div_mod::lemma_mod_bound(-(self.y as int), params.p());
            }
            Projective { x: self.x, y: neg_mod(params.modulus, self.y), z: self.z }
        } else {
            self
        }
    }

    /// `2 * self`.
    pub fn double(&self, params: &SWParams) -> (r: Self)
        requires
            params.wf(),
            self.is_reduced(params.p()),
        ensures
            r.jac() == jac_double(params.p(), params.a(), self.jac()),
            r.is_reduced(params.p()),
    {
        let mut copy = *self;
        copy.double_in_place(params);
        copy
    }

    /// `self + other` for an affine `other`, by mixed addition.
    pub fn add_unique(self, other: &Affine, params: &SWParams) -> (r: Self)
        requires
            params.wf(),
            self.is_reduced(params.p()),
            other.is_reduced(params.p()),
        ensures
            r.jac() == (if other.infinity {
                self.jac()
            } else {
                jac_add(params.p(), params.a(), self.jac(), other.jac_one())
            }),
            r.is_reduced(params.p()),
    {
        let mut copy = self;
        copy.add_unique_in_place(other, params);
        copy
    }

    /// `self + other`.
    pub fn add(self, other: &Projective, params: &SWParams) -> (r: Self)
        requires
            params.wf(),
            self.is_reduced(params.p()),
            other.is_reduced(params.p()),
        ensures
            r.jac() == jac_add(params.p(), params.a(), self.jac(), other.jac()),
            r.is_reduced(params.p()),
    {
        let mut copy = self;
        copy.add_assign(other, params);
        copy
    }

    /// `self - other`, as `self + (-other)`.
    pub fn sub(self, other: &Projective, params: &SWParams) -> (r: Self)
        requires
            params.wf(),
            self.is_reduced(params.p()),
            other.is_reduced(params.p()),
        ensures
            r.jac() == jac_add(params.p(), params.a(), self.jac(), other.neg_spec(params.p()).jac()),
            r.is_reduced(params.p()),
    {
        let mut copy = self;
        copy.sub_assign(other, params);
        copy
    }

    /// The negation that `neg` computes.
    pub open spec fn neg_spec(self, p: int) -> Self {
        if self.z == 0 {
            self
        } else {
            Projective { x: self.x, y: ((-self.y) % p) as u64, z: self.z }
        }
    }

    /// Subtracts `other` from `self` in place, as adding `-other`.
    pub fn sub_assign(&mut self, other: &Projective, params: &SWParams)
        requires
            params.wf(),
            old(self).is_reduced(params.p()),
            other.is_reduced(params.p()),
        ensures
            final(self).jac() == jac_add(
                params.p(),
                params.a(),
                old(self).jac(),
                other.neg_spec(params.p()).jac(),
            ),
            final(self).is_reduced(params.p()),
    {
        let n = other.neg(params);
        self.add_assign(&n, params);
    }

    /// Projective equality: both points stand for the same affine point. The points
    /// `(X1, Y1, Z1)` and `(X2, Y2, Z2)` with `Z` not zero are equal when
    /// `X1 Z2^2 = X2 Z1^2` and `Y1 Z2^3 = Y2 Z1^3`.
    pub fn eq(&self, other: &Projective, params: &SWParams) -> (r: bool)
        requires
            params.wf(),
            self.is_reduced(params.p()),
            other.is_reduced(params.p()),
        ensures
            r == (jac_to_aff(params.p(), self.jac()) == jac_to_aff(params.p(), other.jac())),
    {
        let ghost m = params.p();
        proof {
            lemma_small_mod(self.z as nat, m as nat);
            lemma_small_mod(other.z as nat, m as nat);
        }
        if self.z == 0 {
            return other.z == 0;
        }
        if other.z == 0 {
            return false;
        }
        let p = params.modulus;
        let z1z1 = mul_mod(p, self.z, self.z);
        let z2z2 = mul_mod(p, other.z, other.z);
        let lhs = mul_mod(p, self.x, z2z2);
        let rhs = mul_mod(p, other.x, z1z1);
        let t2 = mul_mod(p, z2z2, other.z);
        let t1 = mul_mod(p, z1z1, self.z);
        let ly = mul_mod(p, self.y, t2);
        let ry = mul_mod(p, other.y, t1);
        proof {
            let (x1, y1, z1, x2, y2, z2) = (
                self.x as int,
                self.y as int,
                self.z as int,
                other.x as int,
                other.y as int,
                other.z as int,
            );
            lemma_mul_step(m, z1, z1, z1, z1);
            lemma_mul_step(m, z2, z2, z2, z2);
            lemma_mul_step(m, x1, z2z2 as int, x1, z2 * z2);
            lemma_mul_step(m, x2, z1z1 as int, x2, z1 * z1);
            lemma_mul_step(m, z2z2 as int, z2, z2 * z2, z2);
            lemma_mul_step(m, z1z1 as int, z1, z1 * z1, z1);
            lemma_mul_step(m, y1, t2 as int, y1, (z2 * z2) * z2);
            lemma_mul_step(m, y2, t1 as int, y2, (z1 * z1) * z1);
            lemma_cong_reduced(m, lhs as int, x1 * (z2 * z2));
            lemma_cong_reduced(m, rhs as int, x2 * (z1 * z1));
            lemma_cong_reduced(m, ly as int, y1 * ((z2 * z2) * z2));
            lemma_cong_reduced(m, ry as int, y2 * ((z1 * z1) * z1));
            lemma_cross_compare(m, self.jac(), other.jac());
        }
        if lhs != rhs {
            false
        } else {
            ly == ry
        }
    }

    /// Equality with an affine point, through its Jacobian coordinates.
    pub fn eq_affine(&self, other: &Affine, params: &SWParams) -> (r: bool)
        requires
            params.wf(),
            self.is_reduced(params.p()),
            other.is_reduced(params.p()),
        ensures
            r == (jac_to_aff(params.p(), self.jac()) == jac_to_aff(
                params.p(),
                Self::from_affine_spec(*other).jac(),
            )),
    {
        let o = Self::from_affine(other);
        proof {
            vstd::arithmetic::div_mod::lemma_small_mod(1, params.p() as nat);
        }
        self.eq(&o, params)
    }

    /// The Jacobian coordinates that `from_affine` gives.
    pub open spec fn from_affine_spec(a: Affine) -> Self {
        if a.infinity {
            Self::spec_zero()
        } else {
            Projective { x: a.x, y: a.y, z: 1 }
        }
    }
}

} // verus!
