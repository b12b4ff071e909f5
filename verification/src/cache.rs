//! Configuration and bit geometry of one cache level: how an address is
//! split into tag, index and offset fields, and which configurations are
//! accepted.

use vstd::prelude::*;
use vstd::arithmetic::div_mod::{
    lemma_div_denominator, lemma_div_nonincreasing, lemma_fundamental_div_mod,
    lemma_mod_division_less_than_divisor, lemma_multiply_divide_lt,
};
use vstd::arithmetic::power2::{
    lemma2_to64, lemma_pow2_adds, lemma_pow2_pos, lemma_pow2_strictly_increases,
    lemma_pow2_subtracts, lemma_pow2_unfold, pow2,
};
use vstd::bits::{
    lemma_u64_low_bits_mask_is_mod, lemma_u64_pow2_no_overflow, lemma_u64_shl_is_mul,
    lemma_u64_shr_is_div, low_bits_mask,
};
use crate::historico_acessos::HistoricoAcessos;
use crate::memoria::Memoria;

verus! {

/// Exponent of `n` as a power of two: for `n == pow2(k)`, `log2(n) == k`.
pub open spec fn log2(n: nat) -> nat
    decreases n,
{
    if n <= 1 {
        0
    } else {
        1 + log2(n / 2)
    }
}

/// `n` is an exact power of two.
pub open spec fn eh_potencia_2(n: nat) -> bool {
    n > 0 && pow2(log2(n)) == n
}

/// `log2` inverts `pow2`.
pub proof fn lemma_log2_pow2(k: nat)
    ensures
        log2(pow2(k)) == k,
    decreases k,
{
    if k == 0 {
        lemma2_to64();
    } else {
        lemma_log2_pow2((k - 1) as nat);
        lemma_pow2_unfold(k);
        lemma_pow2_pos((k - 1) as nat);
        assert(pow2(k) / 2 == pow2((k - 1) as nat));
    }
}

/// `pow2` never decreases with its exponent.
pub proof fn lemma_pow2_nao_decresce(e1: nat, e2: nat)
    requires
        e1 <= e2,
    ensures
        pow2(e1) <= pow2(e2),
{
    if e1 < e2 {
        lemma_pow2_strictly_increases(e1, e2);
    }
}

/// Every value of `pow2` is a power of two.
pub proof fn lemma_pow2_eh_potencia(k: nat)
    ensures
        eh_potencia_2(pow2(k)),
{
    lemma_pow2_pos(k);
    lemma_log2_pow2(k);
}

/// A power of two below `pow2(k)` has its exponent below `k`.
pub proof fn lemma_log2_limite(n: nat, k: nat)
    requires
        eh_potencia_2(n),
        n < pow2(k),
    ensures
        log2(n) < k,
{
    if log2(n) >= k {
        lemma_pow2_nao_decresce(k, log2(n));
    }
}

/// Number of offset bits of a block: the whole block is addressed byte by
/// byte, or word by word.
pub open spec fn bits_de_offset(bsize: u32, enderecado_byte: bool, bytes_por_palavra: u8) -> nat {
    if enderecado_byte {
        log2(bsize as nat)
    } else {
        log2((bsize as nat) / (bytes_por_palavra as nat))
    }
}

/// The configurations the geometry accepts: the five numeric parameters are
/// powers of two, a block holds at least one word, the address fits the
/// 32-bit address type, the index and offset fields fit inside the address,
/// and the total capacity in bytes is representable.
pub open spec fn configuracao_valida(
    nsets: u32,
    bsize: u32,
    assoc: u32,
    address_size: u8,
    enderecado_byte: bool,
    bytes_por_palavra: u8,
) -> bool {
    &&& eh_potencia_2(nsets as nat)
    &&& eh_potencia_2(bsize as nat)
    &&& eh_potencia_2(assoc as nat)
    &&& eh_potencia_2(address_size as nat)
    &&& eh_potencia_2(bytes_por_palavra as nat)
    &&& bytes_por_palavra as u32 <= bsize
    &&& address_size <= 32
    &&& log2(nsets as nat) + bits_de_offset(bsize, enderecado_byte, bytes_por_palavra)
        <= address_size as nat
    &&& (nsets as nat) * (assoc as nat) * (bsize as nat) <= u32::MAX as nat
}

/// Configuration and derived bit geometry of one cache level, together with
/// its access record and the memory level below it.
pub struct Cache<M: Memoria> {
    historico: HistoricoAcessos,

    nsets: u32,
    bsize: u32,
    assoc: u32,

    tag_size: u8,
    index_size: u8,
    offset_size: u8,
    address_size: u8,
    bytes_por_palavra: u8,
    byte_addressed: bool,

    nivel_inferior: M,
}

impl<M: Memoria> Cache<M> {
    pub closed spec fn spec_historico(&self) -> HistoricoAcessos {
        self.historico
    }

    pub closed spec fn spec_nsets(&self) -> u32 {
        self.nsets
    }

    pub closed spec fn spec_bsize(&self) -> u32 {
        self.bsize
    }

    pub closed spec fn spec_assoc(&self) -> u32 {
        self.assoc
    }

    pub closed spec fn spec_tag_size(&self) -> u8 {
        self.tag_size
    }

    pub closed spec fn spec_index_size(&self) -> u8 {
        self.index_size
    }

    pub closed spec fn spec_offset_size(&self) -> u8 {
        self.offset_size
    }

    pub closed spec fn spec_address_size(&self) -> u8 {
        self.address_size
    }

    pub closed spec fn spec_bytes_por_palavra(&self) -> u8 {
        self.bytes_por_palavra
    }

    pub closed spec fn spec_enderecado_byte(&self) -> bool {
        self.byte_addressed
    }

    pub closed spec fn spec_nivel_inferior(&self) -> M {
        self.nivel_inferior
    }

    /// The configuration was accepted and the derived bit widths agree with
    /// it; the access record is consistent.
    pub open spec fn wf(&self) -> bool {
        &&& configuracao_valida(
            self.spec_nsets(),
            self.spec_bsize(),
            self.spec_assoc(),
            self.spec_address_size(),
            self.spec_enderecado_byte(),
            self.spec_bytes_por_palavra(),
        )
        &&& self.spec_index_size() as nat == log2(self.spec_nsets() as nat)
        &&& self.spec_offset_size() as nat == bits_de_offset(
            self.spec_bsize(),
            self.spec_enderecado_byte(),
            self.spec_bytes_por_palavra(),
        )
        &&& self.spec_tag_size() as nat + self.spec_index_size() as nat
            + self.spec_offset_size() as nat == self.spec_address_size() as nat
        &&& self.spec_historico().wf()
    }

    /// Both caches share configuration and derived bit widths (the access
    /// record and the level below may differ).
    pub open spec fn mesma_geometria(&self, outro: &Cache<M>) -> bool {
        &&& self.spec_nsets() == outro.spec_nsets()
        &&& self.spec_bsize() == outro.spec_bsize()
        &&& self.spec_assoc() == outro.spec_assoc()
        &&& self.spec_tag_size() == outro.spec_tag_size()
        &&& self.spec_index_size() == outro.spec_index_size()
        &&& self.spec_offset_size() == outro.spec_offset_size()
        &&& self.spec_address_size() == outro.spec_address_size()
        &&& self.spec_bytes_por_palavra() == outro.spec_bytes_por_palavra()
        &&& self.spec_enderecado_byte() == outro.spec_enderecado_byte()
    }

    /// Bytes one backing-store read hands back under this geometry.
    pub open spec fn spec_unidade_leitura(&self) -> nat {
        if self.spec_enderecado_byte() {
            1
        } else {
            self.spec_bytes_por_palavra() as nat
        }
    }

    /// Number of backing-store reads that fill one block on a miss.
    pub open spec fn spec_leituras_por_falta(&self) -> nat {
        if self.spec_enderecado_byte() {
            self.spec_bsize() as nat
        } else {
            (self.spec_bsize() as nat) / (self.spec_bytes_por_palavra() as nat)
        }
    }

    /// Tag field of an address: the bits above index and offset.
    pub open spec fn spec_tag(&self, endereco: u32) -> nat {
        (endereco as nat) / pow2((self.spec_index_size() + self.spec_offset_size()) as nat)
    }

    /// Index field of an address: the bits between offset and tag.
    pub open spec fn spec_indice(&self, endereco: u32) -> nat {
        ((endereco as nat) / pow2(self.spec_offset_size() as nat)) % pow2(
            self.spec_index_size() as nat,
        )
    }

    /// Offset field of an address: its low bits.
    pub open spec fn spec_offset(&self, endereco: u32) -> nat {
        (endereco as nat) % pow2(self.spec_offset_size() as nat)
    }

    /// Facts about a well-formed geometry that every user of it needs.
    pub proof fn lemma_geometria(&self)
        requires
            self.wf(),
        ensures
            pow2(self.spec_index_size() as nat) == self.spec_nsets() as nat,
            pow2(self.spec_offset_size() as nat) == self.spec_leituras_por_falta(),
            self.spec_unidade_leitura() * self.spec_leituras_por_falta()
                == self.spec_bsize() as nat,
            self.spec_leituras_por_falta() >= 1,
            self.spec_unidade_leitura() >= 1,
            self.spec_index_size() as nat + self.spec_offset_size() as nat <= 32,
            self.spec_nsets() >= 1,
            self.spec_assoc() >= 1,
            self.spec_bsize() >= 1,
            self.spec_bytes_por_palavra() >= 1,
    {
        let b = log2(self.spec_bsize() as nat);
        let w = log2(self.spec_bytes_por_palavra() as nat);
        lemma_pow2_pos(b);
        lemma_pow2_pos(w);
        if !self.spec_enderecado_byte() {
            // words per block is itself a power of two: pow2(b - w)
            if w > b {
                lemma_pow2_strictly_increases(b, w);
            }
            lemma_pow2_subtracts(w, b);
            lemma_log2_pow2((b - w) as nat);
            lemma_pow2_adds(w, (b - w) as nat);
            lemma_pow2_pos((b - w) as nat);
        }
    }

    /// Whether `numero` is an exact power of two; the check every
    /// configuration parameter must pass.
    pub fn verifica_potencia_2(numero: u32) -> (r: bool)
        ensures
            r == eh_potencia_2(numero as nat),
    {
        if numero == 0 {
            return false;
        }
        let mut k: u8 = 0;
        let mut p: u32 = 1;
        proof {
            lemma2_to64();
        }
        while p < numero
            invariant
                numero >= 1,
                k <= 31,
                p as nat == pow2(k as nat),
                forall|j: nat| j < k as nat ==> pow2(j) < numero as nat,
            decreases 31 - k,
        {
            if k == 31 {
                proof {
                    assert forall|j: nat| pow2(j) != numero as nat by {
                        if j <= 31 {
                            lemma_pow2_nao_decresce(j, 31);
                        } else {
                            lemma_pow2_nao_decresce(32, j);
                            lemma2_to64();
                        }
                    }
                }
                return false;
            }
            proof {
                lemma_pow2_unfold((k + 1) as nat);
                lemma_pow2_nao_decresce(k as nat, 30);
                lemma2_to64();
                assert forall|j: nat| j < (k + 1) as nat implies pow2(j) < numero as nat by {
                    if j < k as nat {
                    } else {
                        assert(j == k as nat);
                    }
                }
            }
            k = k + 1;
            p = p * 2;
        }
        if p == numero {
            proof {
                lemma_log2_pow2(k as nat);
            }
            true
        } else {
            proof {
                assert forall|j: nat| pow2(j) != numero as nat by {
                    if j < k as nat {
                    } else {
                        lemma_pow2_nao_decresce(k as nat, j);
                    }
                }
            }
            false
        }
    }

    /// Exponent of a power of two, computed by repeated doubling.
    fn log2_u32(x: u32) -> (r: u8)
        requires
            eh_potencia_2(x as nat),
        ensures
            r as nat == log2(x as nat),
            pow2(r as nat) == x as nat,
            r <= 31,
    {
        proof {
            lemma2_to64();
            lemma_log2_limite(x as nat, 32);
        }
        let ghost alvo: nat = log2(x as nat);
        let mut k: u8 = 0;
        let mut p: u32 = 1;
        while p != x
            invariant
                eh_potencia_2(x as nat),
                alvo == log2(x as nat),
                alvo <= 31,
                p as nat == pow2(k as nat),
                k as nat <= alvo,
            decreases 31 - k,
        {
            proof {
                if k as nat == alvo {
                    assert(p == x);
                }
                lemma_pow2_unfold((k + 1) as nat);
                lemma_pow2_nao_decresce((k + 1) as nat, alvo);
            }
            k = k + 1;
            p = p * 2;
        }
        proof {
            lemma_log2_pow2(k as nat);
        }
        k
    }

    /// Build a cache level over an accepted configuration, deriving the tag,
    /// index and offset widths, with a fresh access record.
    pub fn new(
        nsets: u32,
        bsize: u32,
        assoc: u32,
        address_size: u8,
        byte_addressed: bool,
        bytes_por_palavra: u8,
        nivel_inferior: M,
    ) -> (r: Self)
        requires
            configuracao_valida(
                nsets,
                bsize,
                assoc,
                address_size,
                byte_addressed,
                bytes_por_palavra,
            ),
        ensures
            r.wf(),
            r.spec_nsets() == nsets,
            r.spec_bsize() == bsize,
            r.spec_assoc() == assoc,
            r.spec_address_size() == address_size,
            r.spec_enderecado_byte() == byte_addressed,
            r.spec_bytes_por_palavra() == bytes_por_palavra,
            r.spec_nivel_inferior() == nivel_inferior,
            r.spec_historico().spec_hits() == 0,
            r.spec_historico().spec_misses() == 0,
            r.spec_historico().spec_misses_capacidade() == 0,
            r.spec_historico().spec_misses_conflito() == 0,
            r.spec_historico().spec_misses_compulsorios() == 0,
    {
        let historico = HistoricoAcessos::new();
        let offset_size: u8;
        if byte_addressed {
            offset_size = Self::log2_u32(bsize);
        } else {
            proof {
                let b = log2(bsize as nat);
                let w = log2(bytes_por_palavra as nat);
                if w > b {
                    lemma_pow2_strictly_increases(b, w);
                }
                lemma_pow2_subtracts(w, b);
                lemma_pow2_eh_potencia((b - w) as nat);
            }
            let palavras_por_bloco: u32 = bsize / (bytes_por_palavra as u32);
            offset_size = Self::log2_u32(palavras_por_bloco);
        }
        let index_size: u8 = Self::log2_u32(nsets);
        let tag_size: u8 = address_size - index_size - offset_size;
        Self {
            historico,
            nsets,
            bsize,
            assoc,
            tag_size,
            index_size,
            offset_size,
            address_size,
            bytes_por_palavra,
            byte_addressed,
            nivel_inferior,
        }
    }

    /// Build a cache level after checking the configuration, instead of
    /// requiring it: rejected configurations come back as `None`.
    pub fn try_new(
        nsets: u32,
        bsize: u32,
        assoc: u32,
        address_size: u8,
        byte_addressed: bool,
        bytes_por_palavra: u8,
        nivel_inferior: M,
    ) -> (r: Option<Self>)
        ensures
            (match r {
                Option::Some(c) => {
                    &&& configuracao_valida(
                        nsets,
                        bsize,
                        assoc,
                        address_size,
                        byte_addressed,
                        bytes_por_palavra,
                    )
                    &&& c.wf()
                    &&& c.spec_nsets() == nsets
                    &&& c.spec_bsize() == bsize
                    &&& c.spec_assoc() == assoc
                    &&& c.spec_address_size() == address_size
                    &&& c.spec_enderecado_byte() == byte_addressed
                    &&& c.spec_bytes_por_palavra() == bytes_por_palavra
                    &&& c.spec_nivel_inferior() == nivel_inferior
                    &&& c.spec_historico().spec_hits() == 0
                    &&& c.spec_historico().spec_misses() == 0
                    &&& c.spec_historico().spec_misses_capacidade() == 0
                    &&& c.spec_historico().spec_misses_conflito() == 0
                    &&& c.spec_historico().spec_misses_compulsorios() == 0
                },
                Option::None => !configuracao_valida(
                    nsets,
                    bsize,
                    assoc,
                    address_size,
                    byte_addressed,
                    bytes_por_palavra,
                ),
            }),
    {
        if !Self::verifica_potencia_2(nsets) {
            return None;
        }
        if !Self::verifica_potencia_2(bsize) {
            return None;
        }
        if !Self::verifica_potencia_2(assoc) {
            return None;
        }
        if !Self::verifica_potencia_2(address_size as u32) {
            return None;
        }
        if !Self::verifica_potencia_2(bytes_por_palavra as u32) {
            return None;
        }
        if bsize < bytes_por_palavra as u32 {
            return None;
        }
        if address_size > 32 {
            return None;
        }
        let offset_bits: u8;
        if byte_addressed {
            offset_bits = Self::log2_u32(bsize);
        } else {
            proof {
                let b = log2(bsize as nat);
                let w = log2(bytes_por_palavra as nat);
                if w > b {
                    lemma_pow2_strictly_increases(b, w);
                }
                lemma_pow2_subtracts(w, b);
                lemma_pow2_eh_potencia((b - w) as nat);
            }
            offset_bits = Self::log2_u32(bsize / (bytes_por_palavra as u32));
        }
        let index_bits: u8 = Self::log2_u32(nsets);
        if (index_bits as u32) + (offset_bits as u32) > address_size as u32 {
            return None;
        }
        proof {
            assert((nsets as int) * (assoc as int) <= 0xffffffff * 0xffffffff) by (nonlinear_arith)
                requires
                    nsets as int <= 0xffffffff,
                    assoc as int <= 0xffffffff,
            ;
        }
        let produto_vias: u64 = (nsets as u64) * (assoc as u64);
        if produto_vias > u32::MAX as u64 {
            proof {
                assert((nsets as int) * (assoc as int) <= (nsets as int) * (assoc as int) * (
                bsize as int)) by (nonlinear_arith)
                    requires
                        bsize as int >= 1,
                        nsets as int >= 0,
                        assoc as int >= 0,
                ;
            }
            return None;
        }
        proof {
            assert((produto_vias as int) * (bsize as int) <= 0xffffffff * 0xffffffff) by (
            nonlinear_arith)
                requires
                    produto_vias as int <= 0xffffffff,
                    bsize as int <= 0xffffffff,
            ;
        }
        let capacidade: u64 = produto_vias * (bsize as u64);
        if capacidade > u32::MAX as u64 {
            return None;
        }
        Some(
            Self::new(
                nsets,
                bsize,
                assoc,
                address_size,
                byte_addressed,
                bytes_por_palavra,
                nivel_inferior,
            ),
        )
    }

    pub fn nsets(&self) -> (r: u32)
        ensures
            r == self.spec_nsets(),
    {
        self.nsets
    }

    pub fn historico(&self) -> (r: &HistoricoAcessos)
        ensures
            *r == self.spec_historico(),
    {
        &self.historico
    }

    pub fn historico_mut(&mut self) -> (r: &mut HistoricoAcessos)
        ensures
            *r == old(self).spec_historico(),
            final(self).spec_historico() == *final(r),
            final(self).mesma_geometria(old(self)),
            final(self).spec_nivel_inferior() == old(self).spec_nivel_inferior(),
    {
        &mut self.historico
    }

    pub fn bsize(&self) -> (r: u32)
        ensures
            r == self.spec_bsize(),
    {
        self.bsize
    }

    pub fn assoc(&self) -> (r: u32)
        ensures
            r == self.spec_assoc(),
    {
        self.assoc
    }

    pub fn tag_size(&self) -> (r: u8)
        ensures
            r == self.spec_tag_size(),
    {
        self.tag_size
    }

    pub fn index_size(&self) -> (r: u8)
        ensures
            r == self.spec_index_size(),
    {
        self.index_size
    }

    pub fn offset_size(&self) -> (r: u8)
        ensures
            r == self.spec_offset_size(),
    {
        self.offset_size
    }

    pub fn address_size(&self) -> (r: u8)
        ensures
            r == self.spec_address_size(),
    {
        self.address_size
    }

    pub fn bytes_por_palavra(&self) -> (r: u8)
        ensures
            r == self.spec_bytes_por_palavra(),
    {
        self.bytes_por_palavra
    }

    pub fn enderecado_byte(&self) -> (r: bool)
        ensures
            r == self.spec_enderecado_byte(),
    {
        self.byte_addressed
    }

    pub fn nivel_inferior(&self) -> (r: &M)
        ensures
            *r == self.spec_nivel_inferior(),
    {
        &self.nivel_inferior
    }

    pub fn nivel_inferior_mut(&mut self) -> (r: &mut M)
        ensures
            *r == old(self).spec_nivel_inferior(),
            final(self).spec_nivel_inferior() == *final(r),
            final(self).mesma_geometria(old(self)),
            final(self).spec_historico() == old(self).spec_historico(),
    {
        &mut self.nivel_inferior
    }

    /// How many backing-store reads one miss issues under this geometry.
    pub fn leituras_por_falta(&self) -> (r: u32)
        requires
            self.wf(),
        ensures
            r as nat == self.spec_leituras_por_falta(),
            r >= 1,
    {
        proof {
            self.lemma_geometria();
        }
        if self.byte_addressed {
            self.bsize
        } else {
            self.bsize / (self.bytes_por_palavra as u32)
        }
    }

    /// Tag field of `endereco`: the address shifted past index and offset.
    pub fn tag_do_endereco(&self, endereco: u32) -> (r: u32)
        requires
            self.wf(),
        ensures
            r as nat == self.spec_tag(endereco),
    {
        let desloc: u64 = (self.index_size as u64) + (self.offset_size as u64);
        let deslocado: u64 = (endereco as u64) >> desloc;
        proof {
            lemma_u64_shr_is_div(endereco as u64, desloc);
            lemma_pow2_pos(desloc as nat);
            lemma_div_nonincreasing(endereco as int, pow2(desloc as nat) as int);
        }
        deslocado as u32
    }

    /// Index field of `endereco`: shift out the offset, mask to the index
    /// width, clearing the tag bits.
    pub fn indice_do_endereco(&self, endereco: u32) -> (r: u32)
        requires
            self.wf(),
        ensures
            r as nat == self.spec_indice(endereco),
            r < self.spec_nsets(),
    {
        let deslocado: u64 = (endereco as u64) >> (self.offset_size as u64);
        proof {
            self.lemma_geometria();
            lemma_u64_pow2_no_overflow(self.index_size as nat);
            lemma_u64_shl_is_mul(1u64, self.index_size as u64);
            lemma_pow2_pos(self.index_size as nat);
        }
        let mascara: u64 = (1u64 << (self.index_size as u64)) - 1;
        let resultado: u64 = deslocado & mascara;
        proof {
            lemma_u64_shr_is_div(endereco as u64, self.offset_size as u64);
            assert(mascara == low_bits_mask(self.index_size as nat));
            lemma_u64_low_bits_mask_is_mod(deslocado, self.index_size as nat);
            lemma_pow2_pos(self.index_size as nat);
            lemma_mod_division_less_than_divisor(
                deslocado as int,
                pow2(self.index_size as nat) as int,
            );
        }
        resultado as u32
    }

    /// Offset field of `endereco`: its low bits. When the geometry has no
    /// offset bits (block size equals the addressing unit) it is zero for
    /// every address.
    pub fn offset_endereco(&self, endereco: u32) -> (r: u32)
        requires
            self.wf(),
        ensures
            r as nat == self.spec_offset(endereco),
            (r as nat) < pow2(self.spec_offset_size() as nat),
            self.spec_offset_size() == 0 ==> r == 0,
    {
        proof {
            self.lemma_geometria();
        }
        if self.offset_size == 0 {
            proof {
                lemma2_to64();
            }
            return 0;
        }
        proof {
            lemma_u64_pow2_no_overflow(self.offset_size as nat);
            lemma_u64_shl_is_mul(1u64, self.offset_size as u64);
            lemma_pow2_pos(self.offset_size as nat);
        }
        let mascara: u64 = (1u64 << (self.offset_size as u64)) - 1;
        let resultado: u64 = (endereco as u64) & mascara;
        proof {
            assert(mascara == low_bits_mask(self.offset_size as nat));
            lemma_u64_low_bits_mask_is_mod(endereco as u64, self.offset_size as nat);
            lemma_pow2_pos(self.offset_size as nat);
            lemma_mod_division_less_than_divisor(
                endereco as int,
                pow2(self.offset_size as nat) as int,
            );
        }
        resultado as u32
    }

    /// The tag and index fields of an address locate its block: scaling
    /// them back to their bit positions gives the block-aligned base
    /// address (the address with its offset bits cleared).
    pub proof fn lemma_base_do_bloco(&self, endereco: u32)
        requires
            self.wf(),
        ensures
            (self.spec_tag(endereco) * pow2(self.spec_index_size() as nat)
                + self.spec_indice(endereco)) * pow2(self.spec_offset_size() as nat)
                == endereco - self.spec_offset(endereco),
    {
        let e = endereco as int;
        let o = self.spec_offset_size() as nat;
        let i = self.spec_index_size() as nat;
        lemma_pow2_pos(o);
        lemma_pow2_pos(i);
        lemma_pow2_adds(o, i);
        let po = pow2(o) as int;
        let pi = pow2(i) as int;
        let baixo = e / po;
        lemma_fundamental_div_mod(e, po);
        lemma_fundamental_div_mod(baixo, pi);
        lemma_div_denominator(e, po, pi);
        let etiqueta = self.spec_tag(endereco) as int;
        let indice = self.spec_indice(endereco) as int;
        assert(etiqueta == baixo / pi);
        assert(baixo == etiqueta * pi + indice) by (nonlinear_arith)
            requires
                baixo == pi * (baixo / pi) + baixo % pi,
                etiqueta == baixo / pi,
                indice == baixo % pi,
        ;
        assert((etiqueta * pi + indice) * po == e - e % po) by (nonlinear_arith)
            requires
                baixo == etiqueta * pi + indice,
                e == po * baixo + e % po,
        ;
    }

    /// Tag, index and offset partition the bits of every address
    /// representable in `address_size` bits: scaling each field back to its
    /// position and adding them recovers the address, and each field fits
    /// its width.
    pub proof fn lemma_particao_endereco(&self, endereco: u32)
        requires
            self.wf(),
            (endereco as nat) < pow2(self.spec_address_size() as nat),
        ensures
            self.spec_tag(endereco) * pow2(
                (self.spec_index_size() + self.spec_offset_size()) as nat,
            ) + self.spec_indice(endereco) * pow2(self.spec_offset_size() as nat)
                + self.spec_offset(endereco) == endereco as nat,
            self.spec_tag(endereco) < pow2(self.spec_tag_size() as nat),
            self.spec_indice(endereco) < pow2(self.spec_index_size() as nat),
            self.spec_offset(endereco) < pow2(self.spec_offset_size() as nat),
    {
        let e = endereco as nat;
        let o = self.spec_offset_size() as nat;
        let i = self.spec_index_size() as nat;
        let t = self.spec_tag_size() as nat;
        lemma_pow2_pos(o);
        lemma_pow2_pos(i);
        lemma_pow2_pos(t);
        lemma_pow2_adds(o, i);
        lemma_pow2_pos((o + i) as nat);
        let baixo = e / pow2(o);
        let etiqueta = e / pow2((o + i) as nat);
        let indice = baixo % pow2(i);
        let resto = e % pow2(o);
        lemma_fundamental_div_mod(e as int, pow2(o) as int);
        lemma_fundamental_div_mod(baixo as int, pow2(i) as int);
        lemma_div_denominator(e as int, pow2(o) as int, pow2(i) as int);
        assert(baixo / pow2(i) == etiqueta);
        assert(baixo == etiqueta * pow2(i) + indice);
        assert(e == (etiqueta * pow2(i) + indice) * pow2(o) + resto);
        assert((etiqueta * pow2(i) + indice) * pow2(o) == etiqueta * (pow2(i) * pow2(o)) + indice
            * pow2(o)) by (nonlinear_arith);
        lemma_pow2_adds(i, o);
        lemma_pow2_adds((i + o) as nat, t);
        lemma_multiply_divide_lt(e as int, pow2((i + o) as nat) as int, pow2(t) as int);
        lemma_mod_division_less_than_divisor(baixo as int, pow2(i) as int);
        lemma_mod_division_less_than_divisor(e as int, pow2(o) as int);
    }
}

} // verus!
