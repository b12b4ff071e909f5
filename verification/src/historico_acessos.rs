//! Hit and miss counters of one cache level, with the misses broken down by
//! kind (capacity, conflict, compulsory).

use vstd::prelude::*;

verus! {

/// The classification of a miss: which shortage of the cache caused it.
#[derive(Clone, Copy, Debug, PartialEq, Eq, Structural)]
pub enum FonteMiss {
    Capacidade,
    Conflito,
    Compulsorio,
}

/// Counters of the accesses served by one cache level.
///
/// Invariant (`wf`): the three per-kind counters partition `misses`, and
/// `hits + misses` fits in a `u32`, so the total is always representable.
pub struct HistoricoAcessos {
    hits: u32,
    misses: u32,

    misses_capacidade: u32,
    misses_conflito: u32,
    misses_compulsorios: u32,
}

impl HistoricoAcessos {
    pub closed spec fn spec_hits(&self) -> u32 {
        self.hits
    }

    pub closed spec fn spec_misses(&self) -> u32 {
        self.misses
    }

    pub closed spec fn spec_misses_capacidade(&self) -> u32 {
        self.misses_capacidade
    }

    pub closed spec fn spec_misses_conflito(&self) -> u32 {
        self.misses_conflito
    }

    pub closed spec fn spec_misses_compulsorios(&self) -> u32 {
        self.misses_compulsorios
    }

    /// Every access is either a hit or a miss, so this is the number of
    /// accesses ever recorded.
    pub open spec fn spec_total_acessos(&self) -> int {
        self.spec_hits() + self.spec_misses()
    }

    /// The three miss kinds partition the misses, and the total fits a `u32`.
    pub open spec fn wf(&self) -> bool {
        &&& self.spec_misses() == self.spec_misses_capacidade() + self.spec_misses_conflito()
            + self.spec_misses_compulsorios()
        &&& self.spec_hits() + self.spec_misses() <= u32::MAX
    }

    pub fn new() -> (r: Self)
        ensures
            r.wf(),
            r.spec_hits() == 0,
            r.spec_misses() == 0,
            r.spec_misses_capacidade() == 0,
            r.spec_misses_conflito() == 0,
            r.spec_misses_compulsorios() == 0,
    {
        Self {
            hits: 0,
            misses: 0,
            misses_capacidade: 0,
            misses_compulsorios: 0,
            misses_conflito: 0,
        }
    }

    pub fn adicionar_hit(&mut self)
        requires
            old(self).wf(),
            old(self).spec_total_acessos() < u32::MAX,
        ensures
            final(self).wf(),
            apos_hit(*old(self), *final(self)),
    {
        self.hits = self.hits + 1;
    }

    pub fn adicionar_miss(&mut self, tipo_miss: FonteMiss)
        requires
            old(self).wf(),
            old(self).spec_total_acessos() < u32::MAX,
        ensures
            final(self).wf(),
            apos_miss(*old(self), *final(self), tipo_miss),
    {
        match tipo_miss {
            FonteMiss::Capacidade => self.misses_capacidade = self.misses_capacidade + 1,
            FonteMiss::Conflito => self.misses_conflito = self.misses_conflito + 1,
            FonteMiss::Compulsorio => self.misses_compulsorios = self.misses_compulsorios + 1,
        }
        self.misses = self.misses + 1;
    }

    pub fn total_acessos(&self) -> (r: u32)
        requires
            self.spec_hits() + self.spec_misses() <= u32::MAX,
        ensures
            r == self.spec_total_acessos(),
    {
        self.hits + self.misses
    }

    pub fn get_hits(&self) -> (r: u32)
        ensures
            r == self.spec_hits(),
    {
        self.hits
    }

    pub fn get_misses(&self) -> (r: u32)
        ensures
            r == self.spec_misses(),
    {
        self.misses
    }

    pub fn get_misses_compulsorios(&self) -> (r: u32)
        ensures
            r == self.spec_misses_compulsorios(),
    {
        self.misses_compulsorios
    }

    pub fn get_misses_capacidade(&self) -> (r: u32)
        ensures
            r == self.spec_misses_capacidade(),
    {
        self.misses_capacidade
    }

    pub fn get_misses_conflito(&self) -> (r: u32)
        ensures
            r == self.spec_misses_conflito(),
    {
        self.misses_conflito
    }
}

/// `pos` records exactly one more hit than `pre`, and the same misses.
pub open spec fn apos_hit(pre: HistoricoAcessos, pos: HistoricoAcessos) -> bool {
    &&& pos.spec_hits() == pre.spec_hits() + 1
    &&& pos.spec_misses() == pre.spec_misses()
    &&& pos.spec_misses_capacidade() == pre.spec_misses_capacidade()
    &&& pos.spec_misses_conflito() == pre.spec_misses_conflito()
    &&& pos.spec_misses_compulsorios() == pre.spec_misses_compulsorios()
}

/// `pos` records exactly one more miss than `pre`, charged to `tipo`, and
/// the same hits.
pub open spec fn apos_miss(pre: HistoricoAcessos, pos: HistoricoAcessos, tipo: FonteMiss) -> bool {
    &&& pos.spec_hits() == pre.spec_hits()
    &&& pos.spec_misses() == pre.spec_misses() + 1
    &&& pos.spec_misses_capacidade() == pre.spec_misses_capacidade() + (
    if tipo == FonteMiss::Capacidade {
        1int
    } else {
        0int
    })
    &&& pos.spec_misses_conflito() == pre.spec_misses_conflito() + (if tipo == FonteMiss::Conflito {
        1int
    } else {
        0int
    })
    &&& pos.spec_misses_compulsorios() == pre.spec_misses_compulsorios() + (
    if tipo == FonteMiss::Compulsorio {
        1int
    } else {
        0int
    })
}

/// The per-kind miss counters always partition the total miss count: every
/// miss ever recorded was charged to exactly one of the three kinds.
pub proof fn lemma_fontes_particionam_misses(h: &HistoricoAcessos)
    requires
        h.wf(),
    ensures
        h.spec_misses() == h.spec_misses_capacidade() + h.spec_misses_conflito()
            + h.spec_misses_compulsorios(),
{
}

} // verus!
