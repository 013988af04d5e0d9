//! Exact arithmetic for contest-style programs: integers modulo a constant
//! modulus (`modint`), rationals kept in lowest terms (`ratio`), and a
//! Fenwick tree (`fenwick`) generic over any additive group (`group`), with
//! modular exponentiation (`qpow`), Dijkstra's shortest paths (`sssp`),
//! decimal rendering (`decimal`) and Fermat's little theorem (`fermat`).
pub mod decimal;
pub mod fenwick;
pub mod fermat;
pub mod group;
pub mod modint;
pub mod qpow;
pub mod ratio;
pub mod sssp;
