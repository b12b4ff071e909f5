//! The random replacement policy: the engine that drives lookups, line
//! fills, victim selection and miss classification.
//!
//! The engine owns the line store (`nsets` sets of `assoc` ways), the
//! fullness watermark that tells conflict misses from capacity misses, and
//! the source of the random victim draws.

use vstd::prelude::*;
use vstd::arithmetic::div_mod::{
    lemma_fundamental_div_mod, lemma_mod_decreases, lemma_mod_division_less_than_divisor,
    lemma_multiply_divide_lt,
};
use vstd::arithmetic::mul::{lemma_mul_inequality, lemma_mul_is_commutative};
use vstd::arithmetic::power2::{lemma2_to64, lemma2_to64_rest, lemma_pow2_adds, lemma_pow2_pos, pow2};
use crate::cache::Cache;
use crate::historico_acessos::{apos_hit, apos_miss, FonteMiss, HistoricoAcessos};
use crate::memoria::Memoria;
use rand::Rng;

verus! {

#[verifier::external_type_specification]
#[verifier::external_body]
pub struct ExThreadRng(rand::rngs::ThreadRng);

/// Relies on rand::thread_rng: returns a handle to the generator of the
/// current thread, seeded by the system.
#[verifier::external_body]
fn nova_fonte_aleatoria() -> rand::rngs::ThreadRng {
    rand::thread_rng()
}

/// Relies on rand::Rng::gen::<u32> (the Standard distribution): draws a
/// pseudo-random value; nothing is promised of the result.
#[verifier::external_body]
fn sorteia_u32(fonte: &mut rand::rngs::ThreadRng) -> u32 {
    fonte.gen()
}

/// One cache line: a validity flag, the tag of the block held, and the
/// block's bytes. The block length never changes once the line is built.
struct Linha {
    validade: bool,
    tag: u32,
    bloco: Vec<i8>,
}

impl Linha {
    fn new<M: Memoria>(cache_conf: &Cache<M>) -> (r: Self)
        ensures
            !r.validade,
            r.tag == 0,
            r.bloco@.len() == cache_conf.spec_bsize() as nat,
            forall|i: int| 0 <= i < r.bloco@.len() ==> r.bloco@[i] == 0,
    {
        Linha { validade: false, tag: 0, bloco: Linha::criar_bloco(cache_conf.bsize() as usize) }
    }

    fn criar_bloco(bsize: usize) -> (r: Vec<i8>)
        ensures
            r@.len() == bsize,
            forall|i: int| 0 <= i < r@.len() ==> r@[i] == 0,
    {
        vec![0i8; bsize]
    }
}

/// Valid lines in one set.
spec fn validas_no_conjunto(conjunto: Seq<Linha>) -> nat
    decreases conjunto.len(),
{
    if conjunto.len() == 0 {
        0
    } else {
        validas_no_conjunto(conjunto.drop_last()) + if conjunto.last().validade {
            1nat
        } else {
            0nat
        }
    }
}

/// Valid lines in the whole store.
spec fn validas_na_memoria(memoria: Seq<Vec<Linha>>) -> nat
    decreases memoria.len(),
{
    if memoria.len() == 0 {
        0
    } else {
        validas_na_memoria(memoria.drop_last()) + validas_no_conjunto(memoria.last()@)
    }
}

proof fn lemma_validas_conjunto_push(conjunto: Seq<Linha>, linha: Linha)
    ensures
        validas_no_conjunto(conjunto.push(linha)) == validas_no_conjunto(conjunto) + if linha.validade {
            1nat
        } else {
            0nat
        },
{
    assert(conjunto.push(linha).drop_last() =~= conjunto);
}

proof fn lemma_validas_memoria_push(memoria: Seq<Vec<Linha>>, conjunto: Vec<Linha>)
    ensures
        validas_na_memoria(memoria.push(conjunto)) == validas_na_memoria(memoria)
            + validas_no_conjunto(conjunto@),
{
    assert(memoria.push(conjunto).drop_last() =~= memoria);
}

proof fn lemma_validas_conjunto_limite(conjunto: Seq<Linha>)
    ensures
        validas_no_conjunto(conjunto) <= conjunto.len(),
        validas_no_conjunto(conjunto) == conjunto.len() ==> forall|v: int|
            0 <= v < conjunto.len() ==> (#[trigger] conjunto[v]).validade,
    decreases conjunto.len(),
{
    if conjunto.len() > 0 {
        lemma_validas_conjunto_limite(conjunto.drop_last());
        if validas_no_conjunto(conjunto) == conjunto.len() {
            assert forall|v: int| 0 <= v < conjunto.len() implies (
            #[trigger] conjunto[v]).validade by {
                if v < conjunto.len() - 1 {
                    assert(conjunto.drop_last()[v] == conjunto[v]);
                }
            }
        }
    }
}

proof fn lemma_validas_conjunto_update(conjunto: Seq<Linha>, via: int, linha: Linha)
    requires
        0 <= via < conjunto.len(),
    ensures
        validas_no_conjunto(conjunto.update(via, linha)) + (if conjunto[via].validade {
            1nat
        } else {
            0nat
        }) == validas_no_conjunto(conjunto) + (if linha.validade {
            1nat
        } else {
            0nat
        }),
    decreases conjunto.len(),
{
    let c2 = conjunto.update(via, linha);
    if via == conjunto.len() - 1 {
        assert(c2.drop_last() =~= conjunto.drop_last());
    } else {
        lemma_validas_conjunto_update(conjunto.drop_last(), via, linha);
        assert(c2.drop_last() =~= conjunto.drop_last().update(via, linha));
        assert(c2.last() == conjunto.last());
    }
}

proof fn lemma_validas_memoria_update(memoria: Seq<Vec<Linha>>, s: int, conjunto: Vec<Linha>)
    requires
        0 <= s < memoria.len(),
    ensures
        validas_na_memoria(memoria.update(s, conjunto)) + validas_no_conjunto(memoria[s]@)
            == validas_na_memoria(memoria) + validas_no_conjunto(conjunto@),
    decreases memoria.len(),
{
    let m2 = memoria.update(s, conjunto);
    if s == memoria.len() - 1 {
        assert(m2.drop_last() =~= memoria.drop_last());
    } else {
        lemma_validas_memoria_update(memoria.drop_last(), s, conjunto);
        assert(m2.drop_last() =~= memoria.drop_last().update(s, conjunto));
        assert(m2.last() == memoria.last());
    }
}

/// A block-aligned base address plus a whole block still fits the 32-bit
/// address space.
proof fn lemma_base_alinhada(e: nat, o: nat)
    requires
        o <= 32,
        e < pow2(32),
    ensures
        (e - e % pow2(o)) + pow2(o) <= pow2(32),
{
    lemma_pow2_pos(o);
    let p = pow2(o);
    let q = e / p;
    lemma_mod_decreases(e, p);
    lemma_fundamental_div_mod(e as int, p as int);
    lemma_pow2_adds(o, (32 - o) as nat);
    assert((e as int) < (p as int) * (pow2((32 - o) as nat) as int));
    lemma_multiply_divide_lt(e as int, p as int, pow2((32 - o) as nat) as int);
    assert(q + 1 <= pow2((32 - o) as nat));
    lemma_mul_inequality((q + 1) as int, pow2((32 - o) as nat) as int, p as int);
    lemma_mul_is_commutative(pow2((32 - o) as nat) as int, p as int);
    assert((pow2((32 - o) as nat) as int) * (p as int) == pow2(32));
    assert(((q + 1) as int) * (p as int) == (q as int) * (p as int) + (p as int))
        by (nonlinear_arith);
    assert((q as int) * (p as int) == e - e % p);
}

/// An in-range offset leaves room for a whole word inside the block.
proof fn lemma_limite_extracao(bsize: nat, bpp: nat, offset: nat)
    requires
        bpp >= 1,
        bpp * (bsize / bpp) == bsize,
        offset < bsize / bpp,
    ensures
        offset + bpp <= bsize,
{
    let palavras = bsize / bpp;
    assert(offset + bpp <= bpp * palavras) by (nonlinear_arith)
        requires
            bpp >= 1,
            offset + 1 <= palavras,
    ;
}

/// Bytes handed to the requester out of a block: the single addressed byte
/// in byte-addressed mode, or the addressed word in word-addressed mode.
pub open spec fn extracao(
    bloco: Seq<i8>,
    offset: nat,
    enderecado_byte: bool,
    bytes_por_palavra: u8,
) -> Seq<i8> {
    if enderecado_byte {
        seq![bloco[offset as int]]
    } else {
        bloco.subrange(offset as int, offset as int + bytes_por_palavra as int)
    }
}

/// In-order concatenation of the fill units that `nivel` serves for
/// `quantas` consecutive addresses starting at `base`.
pub open spec fn concat_conteudo<M: Memoria>(nivel: M, base: int, quantas: nat) -> Seq<i8>
    decreases quantas,
{
    if quantas == 0 {
        Seq::empty()
    } else {
        concat_conteudo(nivel, base, (quantas - 1) as nat) + nivel.conteudo_leitura(
            (base + quantas - 1) as u32,
        )
    }
}

/// The concatenation of `quantas` fill units is `quantas` units long.
proof fn lemma_concat_conteudo_comprimento<M: Memoria>(nivel: M, base: int, quantas: nat)
    ensures
        concat_conteudo(nivel, base, quantas).len() == quantas * nivel.tamanho_leitura(),
    decreases quantas,
{
    if quantas == 0 {
        assert(0 * nivel.tamanho_leitura() == 0) by (nonlinear_arith);
    } else {
        lemma_concat_conteudo_comprimento(nivel, base, (quantas - 1) as nat);
        nivel.conteudo_tem_tamanho((base + quantas - 1) as u32);
        assert((quantas - 1) * nivel.tamanho_leitura() + nivel.tamanho_leitura() == quantas
            * nivel.tamanho_leitura()) by (nonlinear_arith);
    }
}

/// Two levels that serve the same bytes everywhere concatenate alike.
proof fn lemma_concat_conteudo_igual<M: Memoria>(a: M, b: M, base: int, quantas: nat)
    requires
        forall|e: u32| #[trigger] a.conteudo_leitura(e) == b.conteudo_leitura(e),
    ensures
        concat_conteudo(a, base, quantas) == concat_conteudo(b, base, quantas),
    decreases quantas,
{
    if quantas > 0 {
        lemma_concat_conteudo_igual(a, b, base, (quantas - 1) as nat);
    }
}

fn extrai_dados(bloco: &Vec<i8>, offset: usize, enderecado_byte: bool, bytes_por_palavra: u8) -> (r:
    Vec<i8>)
    requires
        enderecado_byte ==> (offset as int) < bloco@.len(),
        !enderecado_byte ==> offset + bytes_por_palavra <= bloco@.len(),
    ensures
        r@ == extracao(bloco@, offset as nat, enderecado_byte, bytes_por_palavra),
{
    let mut r: Vec<i8> = Vec::new();
    if enderecado_byte {
        r.push(bloco[offset]);
        proof {
            assert(r@ =~= seq![bloco@[offset as int]]);
        }
    } else {
        let limite: usize = bloco.len();
        let mut i: usize = 0;
        while i < bytes_por_palavra as usize
            invariant
                i <= bytes_por_palavra as usize,
                offset + bytes_por_palavra <= limite,
                limite == bloco@.len(),
                r@.len() == i as nat,
                forall|j: int| 0 <= j < i as int ==> r@[j] == bloco@[offset + j],
            decreases bytes_por_palavra as usize - i,
        {
            r.push(bloco[offset + i]);
            i = i + 1;
        }
        proof {
            assert(r@ =~= bloco@.subrange(offset as int, offset as int + bytes_por_palavra as int));
        }
    }
    r
}

proof fn lemma_validas_memoria_limite(memoria: Seq<Vec<Linha>>, assoc: nat)
    requires
        forall|s: int| 0 <= s < memoria.len() ==> (#[trigger] memoria[s])@.len() == assoc,
    ensures
        validas_na_memoria(memoria) <= memoria.len() * assoc,
        validas_na_memoria(memoria) == memoria.len() * assoc ==> forall|s: int, v: int|
            0 <= s < memoria.len() && 0 <= v < assoc ==> (#[trigger] memoria[s]@[v]).validade,
    decreases memoria.len(),
{
    if memoria.len() > 0 {
        let n = memoria.len();
        assert forall|s: int| 0 <= s < memoria.drop_last().len() implies (
        #[trigger] memoria.drop_last()[s])@.len() == assoc by {
            assert(memoria.drop_last()[s] == memoria[s]);
        }
        lemma_validas_memoria_limite(memoria.drop_last(), assoc);
        lemma_validas_conjunto_limite(memoria.last()@);
        assert((n - 1) * assoc + assoc == n * assoc) by (nonlinear_arith);
        if validas_na_memoria(memoria) == n * assoc {
            assert(validas_na_memoria(memoria.drop_last()) == (n - 1) * assoc);
            assert(validas_no_conjunto(memoria.last()@) == assoc);
            assert forall|s: int, v: int| 0 <= s < n && 0 <= v < assoc implies (
            #[trigger] memoria[s]@[v]).validade by {
                if s < n - 1 {
                    assert(memoria.drop_last()[s] == memoria[s]);
                } else {
                    assert(memoria.last() == memoria[s]);
                }
            }
        }
    }
}

/// The replacement engine under the random policy: the cache configuration
/// with its access record, the line store, the random source for victim
/// draws, and the fullness watermark (bytes placed by compulsory fills).
pub struct Random<M: Memoria> {
    cache_conf: Cache<M>,
    memoria: Vec<Vec<Linha>>,
    random_source: rand::rngs::ThreadRng,
    bytes_utilizados: u32,
}

impl<M: Memoria> Random<M> {
    pub closed spec fn spec_cache_conf(&self) -> Cache<M> {
        self.cache_conf
    }

    pub closed spec fn spec_bytes_utilizados(&self) -> u32 {
        self.bytes_utilizados
    }

    pub open spec fn spec_historico(&self) -> HistoricoAcessos {
        self.spec_cache_conf().spec_historico()
    }

    /// The way `via` of set `conjunto` holds a valid line.
    pub closed spec fn valida_em(&self, conjunto: int, via: int) -> bool {
        self.memoria@[conjunto]@[via].validade
    }

    /// Tag stored in the way `via` of set `conjunto`.
    pub closed spec fn tag_em(&self, conjunto: int, via: int) -> u32 {
        self.memoria@[conjunto]@[via].tag
    }

    /// Block bytes stored in the way `via` of set `conjunto`.
    pub closed spec fn bloco_em(&self, conjunto: int, via: int) -> Seq<i8> {
        self.memoria@[conjunto]@[via].bloco@
    }

    /// Total capacity of the store, in bytes.
    pub open spec fn capacidade(&self) -> nat {
        (self.spec_cache_conf().spec_nsets() as nat) * (self.spec_cache_conf().spec_assoc() as nat)
            * (self.spec_cache_conf().spec_bsize() as nat)
    }

    /// The fullness watermark has reached the total capacity: every way of
    /// every set has been filled at least once.
    pub open spec fn encheu(&self) -> bool {
        self.spec_bytes_utilizados() as nat == self.capacidade()
    }

    /// Some way of set `conjunto` is still invalid.
    pub open spec fn tem_vaga(&self, conjunto: int) -> bool {
        exists|v: int|
            0 <= v < self.spec_cache_conf().spec_assoc() as int && !(#[trigger] self.valida_em(
                conjunto,
                v,
            ))
    }

    /// The block of `endereco` sits in the cache: some way of its set holds
    /// a valid line with its tag.
    pub open spec fn presente(&self, endereco: u32) -> bool {
        exists|v: int|
            0 <= v < self.spec_cache_conf().spec_assoc() as int && (#[trigger] self.valida_em(
                self.spec_cache_conf().spec_indice(endereco) as int,
                v,
            )) && self.tag_em(self.spec_cache_conf().spec_indice(endereco) as int, v) as nat
                == self.spec_cache_conf().spec_tag(endereco)
    }

    /// Every line of `self` equals the corresponding line of `outro`.
    pub open spec fn mesmas_linhas(&self, outro: &Self) -> bool {
        forall|s: int, v: int|
            0 <= s < self.spec_cache_conf().spec_nsets() as int && 0 <= v
                < self.spec_cache_conf().spec_assoc() as int ==> {
                &&& (#[trigger] self.valida_em(s, v)) == outro.valida_em(s, v)
                &&& self.tag_em(s, v) == outro.tag_em(s, v)
                &&& self.bloco_em(s, v) == outro.bloco_em(s, v)
            }
    }

    /// Every line of `self` equals the corresponding line of `outro`,
    /// except possibly the way `via0` of set `conjunto0`.
    pub open spec fn mesmas_linhas_exceto(&self, outro: &Self, conjunto0: int, via0: int) -> bool {
        forall|s: int, v: int|
            0 <= s < self.spec_cache_conf().spec_nsets() as int && 0 <= v
                < self.spec_cache_conf().spec_assoc() as int && !(s == conjunto0 && v == via0)
                ==> {
                &&& (#[trigger] self.valida_em(s, v)) == outro.valida_em(s, v)
                &&& self.tag_em(s, v) == outro.tag_em(s, v)
                &&& self.bloco_em(s, v) == outro.bloco_em(s, v)
            }
    }

    /// Set an address selects, under this engine's geometry.
    pub open spec fn conjunto_do(&self, endereco: u32) -> int {
        self.spec_cache_conf().spec_indice(endereco) as int
    }

    /// Tag of an address, under this engine's geometry.
    pub open spec fn tag_do(&self, endereco: u32) -> nat {
        self.spec_cache_conf().spec_tag(endereco)
    }

    /// What a read of `endereco` hands back out of the block that holds it.
    pub open spec fn extracao_de(&self, bloco: Seq<i8>, endereco: u32) -> Seq<i8> {
        extracao(
            bloco,
            self.spec_cache_conf().spec_offset(endereco),
            self.spec_cache_conf().spec_enderecado_byte(),
            self.spec_cache_conf().spec_bytes_por_palavra(),
        )
    }

    /// Block-aligned base address of `endereco`: its offset bits cleared.
    pub open spec fn base_do_endereco(&self, endereco: u32) -> int {
        endereco - self.spec_cache_conf().spec_offset(endereco)
    }

    /// Base address of the block a line of set `conjunto` with tag `tag`
    /// holds: the tag and index fields scaled back to their positions.
    pub open spec fn base_da_linha(&self, conjunto: int, tag: u32) -> int {
        (tag * pow2(self.spec_cache_conf().spec_index_size() as nat) + conjunto) * pow2(
            self.spec_cache_conf().spec_offset_size() as nat,
        )
    }

    /// The block the level below serves for the aligned address `base`: one
    /// fill unit per read, at consecutive addresses, concatenated in order.
    pub open spec fn bloco_do_nivel(&self, base: int) -> Seq<i8> {
        concat_conteudo(
            self.spec_cache_conf().spec_nivel_inferior(),
            base,
            self.spec_cache_conf().spec_leituras_por_falta(),
        )
    }

    /// What a read of `endereco` hands back: the addressed byte or word of
    /// the block the level below serves for its base address.
    pub open spec fn conteudo_servido(&self, endereco: u32) -> Seq<i8> {
        self.extracao_de(self.bloco_do_nivel(self.base_do_endereco(endereco)), endereco)
    }

    /// The engine's invariant: a well-formed geometry; the store has the
    /// configured dimensions and block lengths; no set holds the same tag in
    /// two valid ways; the watermark counts exactly the bytes of the valid
    /// lines; and the level below hands back blocks of the fill-unit size.
    pub closed spec fn wf(&self) -> bool {
        &&& self.cache_conf.wf()
        &&& self.memoria@.len() == self.cache_conf.spec_nsets() as nat
        &&& (forall|s: int|
            0 <= s < self.memoria@.len() ==> (#[trigger] self.memoria@[s])@.len()
                == self.cache_conf.spec_assoc() as nat)
        &&& (forall|s: int, v: int|
            0 <= s < self.memoria@.len() && 0 <= v < self.cache_conf.spec_assoc() as int ==> (
            #[trigger] self.memoria@[s]@[v]).bloco@.len() == self.cache_conf.spec_bsize() as nat)
        &&& (forall|s: int, v1: int, v2: int|
            0 <= s < self.memoria@.len() && 0 <= v1 < self.cache_conf.spec_assoc() as int && 0
                <= v2 < self.cache_conf.spec_assoc() as int && v1 != v2 && (
            #[trigger] self.memoria@[s]@[v1]).validade && (#[trigger] self.memoria@[s]@[v2]).validade
                ==> self.memoria@[s]@[v1].tag != self.memoria@[s]@[v2].tag)
        &&& (forall|s: int, v: int|
            0 <= s < self.memoria@.len() && 0 <= v < self.cache_conf.spec_assoc() as int && (
            #[trigger] self.memoria@[s]@[v]).validade ==> self.memoria@[s]@[v].bloco@
                == self.bloco_do_nivel(self.base_da_linha(s, self.memoria@[s]@[v].tag)))
        &&& self.bytes_utilizados as nat == (self.cache_conf.spec_bsize() as nat)
            * validas_na_memoria(self.memoria@)
        &&& self.cache_conf.spec_nivel_inferior().tamanho_leitura()
            == self.cache_conf.spec_unidade_leitura()
    }

    /// Facts of the invariant that callers need: the engine wraps a
    /// well-formed cache level, and the fullness watermark never exceeds
    /// the total capacity.
    pub proof fn lemma_boa_formacao(&self)
        requires
            self.wf(),
        ensures
            self.spec_cache_conf().wf(),
            self.spec_bytes_utilizados() as nat <= self.capacidade(),
    {
        let conf = self.spec_cache_conf();
        let nsets = conf.spec_nsets() as int;
        let assoc = conf.spec_assoc() as int;
        let bsize = conf.spec_bsize() as int;
        let contagem = validas_na_memoria(self.memoria@);
        lemma_validas_memoria_limite(self.memoria@, conf.spec_assoc() as nat);
        assert(bsize * (contagem as int) <= nsets * assoc * bsize) by (nonlinear_arith)
            requires
                contagem as int <= nsets * assoc,
                bsize >= 0,
        ;
    }

    /// Build the engine over a configured cache level: `nsets` sets of
    /// `assoc` ways each, all lines invalid with zeroed blocks.
    pub fn new(cache_conf: Cache<M>) -> (r: Self)
        requires
            cache_conf.wf(),
            cache_conf.spec_nivel_inferior().tamanho_leitura()
                == cache_conf.spec_unidade_leitura(),
        ensures
            r.wf(),
            r.spec_cache_conf() == cache_conf,
            r.spec_bytes_utilizados() == 0,
            forall|s: int, v: int|
                0 <= s < cache_conf.spec_nsets() as int && 0 <= v < cache_conf.spec_assoc() as int
                    ==> !(#[trigger] r.valida_em(s, v)),
            forall|s: int, v: int|
                0 <= s < cache_conf.spec_nsets() as int && 0 <= v < cache_conf.spec_assoc() as int
                    ==> (#[trigger] r.tag_em(s, v)) == 0,
            forall|s: int, v: int|
                0 <= s < cache_conf.spec_nsets() as int && 0 <= v < cache_conf.spec_assoc() as int
                    ==> (#[trigger] r.bloco_em(s, v)).len() == cache_conf.spec_bsize() as nat,
            forall|s: int, v: int, b: int|
                0 <= s < cache_conf.spec_nsets() as int && 0 <= v < cache_conf.spec_assoc() as int
                    && 0 <= b < cache_conf.spec_bsize() as int ==> (#[trigger] r.bloco_em(s, v)[b])
                    == 0i8,
    {
        let nsets: u32 = cache_conf.nsets();
        let assoc: u32 = cache_conf.assoc();
        let mut memoria: Vec<Vec<Linha>> = Vec::with_capacity(nsets as usize);
        let mut s: u32 = 0;
        while s < nsets
            invariant
                s <= nsets,
                cache_conf.wf(),
                nsets == cache_conf.spec_nsets(),
                assoc == cache_conf.spec_assoc(),
                memoria@.len() == s as nat,
                forall|j: int|
                    0 <= j < s as int ==> (#[trigger] memoria@[j])@.len() == assoc as nat,
                forall|j: int, v: int|
                    0 <= j < s as int && 0 <= v < assoc as int ==> !(
                    #[trigger] memoria@[j]@[v]).validade,
                forall|j: int, v: int|
                    0 <= j < s as int && 0 <= v < assoc as int ==> (
                    #[trigger] memoria@[j]@[v]).tag == 0,
                forall|j: int, v: int|
                    0 <= j < s as int && 0 <= v < assoc as int ==> (
                    #[trigger] memoria@[j]@[v]).bloco@.len() == cache_conf.spec_bsize() as nat,
                forall|j: int, v: int, b: int|
                    0 <= j < s as int && 0 <= v < assoc as int && 0 <= b
                        < cache_conf.spec_bsize() as int ==> (#[trigger] memoria@[j]@[v].bloco@[b])
                        == 0i8,
                validas_na_memoria(memoria@) == 0,
            decreases nsets - s,
        {
            let mut item: Vec<Linha> = Vec::with_capacity(assoc as usize);
            let mut v: u32 = 0;
            while v < assoc
                invariant
                    v <= assoc,
                    cache_conf.wf(),
                    assoc == cache_conf.spec_assoc(),
                    item@.len() == v as nat,
                    forall|w: int| 0 <= w < v as int ==> !(#[trigger] item@[w]).validade,
                    forall|w: int| 0 <= w < v as int ==> (#[trigger] item@[w]).tag == 0,
                    forall|w: int|
                        0 <= w < v as int ==> (#[trigger] item@[w]).bloco@.len()
                            == cache_conf.spec_bsize() as nat,
                    forall|w: int, b: int|
                        0 <= w < v as int && 0 <= b < cache_conf.spec_bsize() as int ==> (
                        #[trigger] item@[w].bloco@[b]) == 0i8,
                    validas_no_conjunto(item@) == 0,
                decreases assoc - v,
            {
                let bloco = Linha::new(&cache_conf);
                proof {
                    lemma_validas_conjunto_push(item@, bloco);
                }
                item.push(bloco);
                v = v + 1;
            }
            proof {
                lemma_validas_memoria_push(memoria@, item);
            }
            memoria.push(item);
            s = s + 1;
        }
        let random_source = nova_fonte_aleatoria();
        let resultado = Self { cache_conf, memoria, random_source, bytes_utilizados: 0 };
        proof {
            assert(resultado.memoria@.len() == resultado.cache_conf.spec_nsets() as nat);
            assert(resultado.bytes_utilizados as nat == (resultado.cache_conf.spec_bsize() as nat)
                * validas_na_memoria(resultado.memoria@));
            assert(resultado.wf());
        }
        resultado
    }

    /// Read-only view of the access record of this cache level.
    pub fn historico_acessos(&self) -> (r: &HistoricoAcessos)
        ensures
            *r == self.spec_cache_conf().spec_historico(),
    {
        self.cache_conf.historico()
    }

    /// Read-only view of the cache level this engine drives.
    pub fn cache_conf(&self) -> (r: &Cache<M>)
        ensures
            *r == self.spec_cache_conf(),
    {
        &self.cache_conf
    }

    /// Scan set `indice` in stored order for a valid way holding
    /// `tag_procura`.
    fn procura_acerto(&self, indice: u32, tag_procura: u32) -> (r: Option<usize>)
        requires
            self.wf(),
            (indice as int) < self.spec_cache_conf().spec_nsets() as int,
        ensures
            (match r {
                Option::Some(posicao) => {
                    &&& (posicao as int) < self.spec_cache_conf().spec_assoc() as int
                    &&& self.valida_em(indice as int, posicao as int)
                    &&& self.tag_em(indice as int, posicao as int) == tag_procura
                },
                Option::None => forall|v: int|
                    0 <= v < self.spec_cache_conf().spec_assoc() as int ==> !((
                    #[trigger] self.valida_em(indice as int, v)) && self.tag_em(indice as int, v)
                        == tag_procura),
            }),
    {
        let conjunto: &Vec<Linha> = &self.memoria[indice as usize];
        let mut posicao: usize = 0;
        while posicao < conjunto.len()
            invariant
                self.wf(),
                (indice as int) < self.spec_cache_conf().spec_nsets() as int,
                conjunto@ == self.memoria@[indice as int].view(),
                posicao <= conjunto@.len(),
                conjunto@.len() == self.spec_cache_conf().spec_assoc() as nat,
                forall|v: int|
                    0 <= v < posicao as int ==> !((#[trigger] self.valida_em(indice as int, v))
                        && self.tag_em(indice as int, v) == tag_procura),
            decreases conjunto@.len() - posicao,
        {
            if conjunto[posicao].tag == tag_procura && conjunto[posicao].validade {
                return Some(posicao);
            }
            posicao = posicao + 1;
        }
        None
    }

    /// Scan set `indice` for an invalid way: whether one exists, and the
    /// position of the first one.
    fn possui_espaco_vazio_no_conjunto(&self, indice: u32) -> (r: (bool, usize))
        requires
            self.wf(),
            (indice as int) < self.spec_cache_conf().spec_nsets() as int,
        ensures
            r.0 == self.tem_vaga(indice as int),
            r.0 ==> (r.1 as int) < self.spec_cache_conf().spec_assoc() as int && !self.valida_em(
                indice as int,
                r.1 as int,
            ),
            r.0 ==> forall|w: int|
                0 <= w < r.1 as int ==> #[trigger] self.valida_em(indice as int, w),
    {
        let conjunto: &Vec<Linha> = &self.memoria[indice as usize];
        let mut posicao: usize = 0;
        while posicao < conjunto.len()
            invariant
                self.wf(),
                (indice as int) < self.spec_cache_conf().spec_nsets() as int,
                conjunto@ == self.memoria@[indice as int].view(),
                posicao <= conjunto@.len(),
                conjunto@.len() == self.spec_cache_conf().spec_assoc() as nat,
                forall|v: int| 0 <= v < posicao as int ==> #[trigger] self.valida_em(
                    indice as int,
                    v,
                ),
            decreases conjunto@.len() - posicao,
        {
            if !conjunto[posicao].validade {
                proof {
                    assert(!self.valida_em(indice as int, posicao as int));
                }
                return (true, posicao);
            }
            posicao = posicao + 1;
        }
        (false, posicao)
    }

    /// The fullness watermark has reached the total capacity of the store.
    fn verifica_cache_encheu(&self) -> (r: bool)
        requires
            self.wf(),
        ensures
            r == self.encheu(),
    {
        proof {
            self.cache_conf.lemma_geometria();
            assert((self.cache_conf.spec_bsize() as int) * (self.cache_conf.spec_assoc() as int)
                <= (self.cache_conf.spec_nsets() as int) * (self.cache_conf.spec_assoc() as int) * (
            self.cache_conf.spec_bsize() as int) && (self.cache_conf.spec_bsize() as int) * (
            self.cache_conf.spec_assoc() as int) * (self.cache_conf.spec_nsets() as int) == (
            self.cache_conf.spec_nsets() as int) * (self.cache_conf.spec_assoc() as int) * (
            self.cache_conf.spec_bsize() as int)) by (nonlinear_arith)
                requires
                    self.cache_conf.spec_nsets() as int >= 1,
                    self.cache_conf.spec_assoc() as int >= 0,
                    self.cache_conf.spec_bsize() as int >= 0,
            ;
        }
        self.bytes_utilizados == self.cache_conf.bsize() * self.cache_conf.assoc()
            * self.cache_conf.nsets()
    }

    /// Overwrite one way of one set with `nova`.
    fn grava_linha(&mut self, conjunto: usize, posicao: usize, nova: Linha)
        requires
            (conjunto as int) < old(self).memoria@.len(),
            (posicao as int) < old(self).memoria@[conjunto as int]@.len(),
        ensures
            final(self).cache_conf == old(self).cache_conf,
            final(self).bytes_utilizados == old(self).bytes_utilizados,
            final(self).memoria@.len() == old(self).memoria@.len(),
            final(self).memoria@[conjunto as int]@ == old(self).memoria@[conjunto as int]@.update(
                posicao as int,
                nova,
            ),
            forall|s: int|
                0 <= s < old(self).memoria@.len() && s != conjunto as int ==> (
                #[trigger] final(self).memoria@[s]) == old(self).memoria@[s],
    {
        let conj: &mut Vec<Linha> = &mut self.memoria[conjunto];
        let slot: &mut Linha = &mut conj[posicao];
        *slot = nova;
    }

    /// Build the line that will enter the cache on a miss: tagged with the
    /// address's tag, valid, its block filled by sequential reads of the
    /// level below starting at the block-aligned address, one read per fill
    /// unit, in increasing address order. The block is pinned to be the
    /// in-order concatenation of those reads, and the level's read counter
    /// advances by exactly the fill-unit count.
    fn trata_falta_leitura(&mut self, endereco: u32) -> (nova_linha: Linha)
        requires
            old(self).wf(),
            old(self).spec_cache_conf().spec_nivel_inferior().leituras_prontas() >= old(
                self,
            ).spec_cache_conf().spec_leituras_por_falta(),
        ensures
            final(self).wf(),
            final(self).cache_conf.mesma_geometria(&old(self).cache_conf),
            final(self).cache_conf.spec_historico() == old(self).cache_conf.spec_historico(),
            final(self).bytes_utilizados == old(self).bytes_utilizados,
            final(self).memoria@ == old(self).memoria@,
            final(self).spec_cache_conf().spec_nivel_inferior().leituras_prontas() + old(
                self,
            ).spec_cache_conf().spec_leituras_por_falta() >= old(
                self,
            ).spec_cache_conf().spec_nivel_inferior().leituras_prontas(),
            final(self).spec_cache_conf().spec_nivel_inferior().leituras_servidas() == old(
                self,
            ).spec_cache_conf().spec_nivel_inferior().leituras_servidas() + old(
                self,
            ).spec_cache_conf().spec_leituras_por_falta(),
            forall|e: u32| #[trigger]
                final(self).spec_cache_conf().spec_nivel_inferior().conteudo_leitura(e) == old(
                    self,
                ).spec_cache_conf().spec_nivel_inferior().conteudo_leitura(e),
            nova_linha.validade,
            nova_linha.tag as nat == old(self).spec_cache_conf().spec_tag(endereco),
            nova_linha.bloco@.len() == old(self).spec_cache_conf().spec_bsize() as nat,
            nova_linha.bloco@ == old(self).bloco_do_nivel(old(self).base_do_endereco(endereco)),
    {
        proof {
            self.cache_conf.lemma_geometria();
        }
        let mut nova_linha = Linha::new(&self.cache_conf);
        nova_linha.tag = self.cache_conf.tag_do_endereco(endereco);
        nova_linha.validade = true;
        nova_linha.bloco.clear();

        let offset: u32 = self.cache_conf.offset_endereco(endereco);
        proof {
            lemma_pow2_pos(self.cache_conf.spec_offset_size() as nat);
            lemma_mod_decreases(endereco as nat, pow2(self.cache_conf.spec_offset_size() as nat));
            lemma2_to64();
            lemma2_to64_rest();
            lemma_base_alinhada(endereco as nat, self.cache_conf.spec_offset_size() as nat);
        }
        let endereco_sem_offset: u32 = endereco - offset;
        let unidades: u32 = self.cache_conf.leituras_por_falta();
        let ghost unidade: nat = self.cache_conf.spec_unidade_leitura();
        let ghost nivel_antes = old(self).spec_cache_conf().spec_nivel_inferior();
        let mut i: u32 = 0;
        while i < unidades
            invariant
                self.cache_conf.mesma_geometria(&old(self).cache_conf),
                self.cache_conf.spec_historico() == old(self).cache_conf.spec_historico(),
                self.bytes_utilizados == old(self).bytes_utilizados,
                self.memoria@ == old(self).memoria@,
                i <= unidades,
                unidades as nat == old(self).spec_cache_conf().spec_leituras_por_falta(),
                unidade == old(self).spec_cache_conf().spec_unidade_leitura(),
                (endereco_sem_offset as nat) + (unidades as nat) <= pow2(32),
                nivel_antes == old(self).spec_cache_conf().spec_nivel_inferior(),
                self.spec_cache_conf().spec_nivel_inferior().leituras_prontas() + i as nat
                    >= nivel_antes.leituras_prontas(),
                nivel_antes.leituras_prontas() >= unidades as nat,
                self.spec_cache_conf().spec_nivel_inferior().tamanho_leitura()
                    == nivel_antes.tamanho_leitura(),
                self.spec_cache_conf().spec_nivel_inferior().leituras_servidas()
                    == nivel_antes.leituras_servidas() + i as nat,
                forall|e: u32| #[trigger]
                    self.spec_cache_conf().spec_nivel_inferior().conteudo_leitura(e)
                        == nivel_antes.conteudo_leitura(e),
                nova_linha.validade,
                nova_linha.tag as nat == old(self).spec_cache_conf().spec_tag(endereco),
                nova_linha.bloco@ == concat_conteudo(
                    nivel_antes,
                    endereco_sem_offset as int,
                    i as nat,
                ),
            decreases unidades - i,
        {
            proof {
                lemma2_to64();
                lemma2_to64_rest();
            }
            let nivel: &mut M = self.cache_conf.nivel_inferior_mut();
            let mut bytes_lidos = nivel.read(endereco_sem_offset + i);
            nova_linha.bloco.append(&mut bytes_lidos);
            proof {
                assert((endereco_sem_offset as int + (i as int + 1) - 1) as u32
                    == endereco_sem_offset + i);
                assert(nova_linha.bloco@ == concat_conteudo(
                    nivel_antes,
                    endereco_sem_offset as int,
                    (i + 1) as nat,
                ));
            }
            i = i + 1;
        }
        proof {
            old(self).spec_cache_conf().lemma_geometria();
            let conf = self.spec_cache_conf();
            assert(conf.wf());
            lemma_concat_conteudo_comprimento(
                nivel_antes,
                endereco_sem_offset as int,
                unidades as nat,
            );
            assert((unidades as int) * (unidade as int) == (unidade as int) * (unidades as int))
                by (nonlinear_arith);
            assert(nova_linha.bloco@.len() == old(self).spec_cache_conf().spec_bsize() as nat);
            assert forall|s: int, v: int|
                0 <= s < self.memoria@.len() && 0 <= v < conf.spec_assoc() as int && (
                #[trigger] self.memoria@[s]@[v]).validade implies self.memoria@[s]@[v].bloco@
                == self.bloco_do_nivel(self.base_da_linha(s, self.memoria@[s]@[v].tag)) by {
                assert(old(self).memoria@[s]@[v].validade);
                lemma_concat_conteudo_igual(
                    self.spec_cache_conf().spec_nivel_inferior(),
                    nivel_antes,
                    self.base_da_linha(s, self.memoria@[s]@[v].tag),
                    conf.spec_leituras_por_falta(),
                );
            }
            assert(self.wf());
        }
        nova_linha
    }

    /// Process one read access: probe the set the address selects for its
    /// tag; on a hit only the hit counter moves; on a miss a freshly filled
    /// line replaces the first empty way (a compulsory miss, advancing the
    /// watermark by one block) or a uniformly drawn victim way (a capacity
    /// miss once the watermark has reached the total capacity, else a
    /// conflict miss). Exactly one access is recorded either way, and the
    /// bytes handed back come from the block that now holds the address.
    pub fn leitura(&mut self, endereco: u32) -> (resultado: Vec<i8>)
        requires
            old(self).wf(),
            old(self).spec_historico().spec_total_acessos() < u32::MAX,
            old(self).spec_cache_conf().spec_nivel_inferior().leituras_prontas() >= old(
                self,
            ).spec_cache_conf().spec_leituras_por_falta(),
        ensures
            final(self).wf(),
            final(self).spec_cache_conf().mesma_geometria(&old(self).spec_cache_conf()),
            final(self).spec_cache_conf().spec_nivel_inferior().leituras_prontas() + old(
                self,
            ).spec_cache_conf().spec_leituras_por_falta() >= old(
                self,
            ).spec_cache_conf().spec_nivel_inferior().leituras_prontas(),
            resultado@.len() == old(self).spec_cache_conf().spec_unidade_leitura(),
            final(self).spec_historico().spec_total_acessos() == old(
                self,
            ).spec_historico().spec_total_acessos() + 1,
            final(self).spec_bytes_utilizados() >= old(self).spec_bytes_utilizados(),
            old(self).encheu() ==> final(self).encheu(),
            final(self).presente(endereco),
            resultado@ == old(self).conteudo_servido(endereco),
            forall|e: u32| #[trigger]
                final(self).spec_cache_conf().spec_nivel_inferior().conteudo_leitura(e) == old(
                    self,
                ).spec_cache_conf().spec_nivel_inferior().conteudo_leitura(e),
            old(self).presente(endereco) ==> {
                &&& apos_hit(old(self).spec_historico(), final(self).spec_historico())
                &&& final(self).spec_bytes_utilizados() == old(self).spec_bytes_utilizados()
                &&& final(self).spec_cache_conf().spec_nivel_inferior() == old(
                    self,
                ).spec_cache_conf().spec_nivel_inferior()
                &&& final(self).mesmas_linhas(old(self))
                &&& forall|v: int|
                    0 <= v < old(self).spec_cache_conf().spec_assoc() as int && (
                    #[trigger] old(self).valida_em(old(self).conjunto_do(endereco), v)) && old(
                        self,
                    ).tag_em(old(self).conjunto_do(endereco), v) as nat == old(self).tag_do(
                        endereco,
                    ) ==> resultado@ == old(self).extracao_de(
                        old(self).bloco_em(old(self).conjunto_do(endereco), v),
                        endereco,
                    )
            },
            !old(self).presente(endereco) ==> {
                &&& apos_miss(
                    old(self).spec_historico(),
                    final(self).spec_historico(),
                    if old(self).tem_vaga(old(self).conjunto_do(endereco)) {
                        FonteMiss::Compulsorio
                    } else if old(self).encheu() {
                        FonteMiss::Capacidade
                    } else {
                        FonteMiss::Conflito
                    },
                )
                &&& exists|v: int|
                    {
                        &&& 0 <= v < old(self).spec_cache_conf().spec_assoc() as int
                        &&& (#[trigger] final(self).valida_em(old(self).conjunto_do(endereco), v))
                        &&& final(self).tag_em(old(self).conjunto_do(endereco), v) as nat == old(
                            self,
                        ).tag_do(endereco)
                        &&& final(self).bloco_em(old(self).conjunto_do(endereco), v).len() == old(
                            self,
                        ).spec_cache_conf().spec_bsize() as nat
                        &&& resultado@ == old(self).extracao_de(
                            final(self).bloco_em(old(self).conjunto_do(endereco), v),
                            endereco,
                        )
                        &&& final(self).mesmas_linhas_exceto(
                            old(self),
                            old(self).conjunto_do(endereco),
                            v,
                        )
                        &&& (old(self).tem_vaga(old(self).conjunto_do(endereco)) ==> !old(
                            self,
                        ).valida_em(old(self).conjunto_do(endereco), v) && forall|w: int|
                            0 <= w < v ==> #[trigger] old(self).valida_em(
                                old(self).conjunto_do(endereco),
                                w,
                            ))
                    }
                &&& (old(self).tem_vaga(old(self).conjunto_do(endereco))
                    ==> final(self).spec_bytes_utilizados() == old(self).spec_bytes_utilizados()
                    + old(self).spec_cache_conf().spec_bsize())
                &&& (!old(self).tem_vaga(old(self).conjunto_do(endereco))
                    ==> final(self).spec_bytes_utilizados() == old(self).spec_bytes_utilizados())
                &&& final(self).spec_cache_conf().spec_nivel_inferior().leituras_servidas() == old(
                    self,
                ).spec_cache_conf().spec_nivel_inferior().leituras_servidas() + old(
                    self,
                ).spec_cache_conf().spec_leituras_por_falta()
            },
    {
        proof {
            self.cache_conf.lemma_geometria();
        }
        let indice: u32 = self.cache_conf.indice_do_endereco(endereco);
        let tag_procura: u32 = self.cache_conf.tag_do_endereco(endereco);

        match self.procura_acerto(indice, tag_procura) {
            Option::Some(posicao) => {
                proof {
                    assert(old(self).valida_em(indice as int, posicao as int));
                    assert(old(self).presente(endereco));
                }
                self.cache_conf.historico_mut().adicionar_hit();
                let offset: u32 = self.cache_conf.offset_endereco(endereco);
                proof {
                    self.cache_conf.lemma_geometria();
                    if !self.cache_conf.spec_enderecado_byte() {
                        lemma_limite_extracao(
                            self.cache_conf.spec_bsize() as nat,
                            self.cache_conf.spec_bytes_por_palavra() as nat,
                            offset as nat,
                        );
                    }
                }
                let resultado = extrai_dados(
                    &self.memoria[indice as usize][posicao].bloco,
                    offset as usize,
                    self.cache_conf.enderecado_byte(),
                    self.cache_conf.bytes_por_palavra(),
                );
                proof {
                    let idx = old(self).conjunto_do(endereco);
                    assert forall|v: int|
                        0 <= v < old(self).spec_cache_conf().spec_assoc() as int && (old(
                            self,
                        ).valida_em(idx, v)) && old(self).tag_em(idx, v) as nat == old(self).tag_do(
                            endereco,
                        ) implies resultado@ == old(self).extracao_de(
                        old(self).bloco_em(idx, v),
                        endereco,
                    ) by {
                        if v != posicao as int {
                            assert(self.memoria@[idx]@[v].validade);
                            assert(self.memoria@[idx]@[posicao as int].validade);
                            assert(false);
                        }
                    }
                    assert(self.spec_cache_conf().spec_indice(endereco) == old(
                        self,
                    ).spec_cache_conf().spec_indice(endereco));
                    assert(self.spec_cache_conf().spec_tag(endereco) == old(
                        self,
                    ).spec_cache_conf().spec_tag(endereco));
                    assert(self.valida_em(self.conjunto_do(endereco), posicao as int));
                    assert(self.tag_em(self.conjunto_do(endereco), posicao as int) as nat
                        == self.spec_cache_conf().spec_tag(endereco));
                    assert(self.presente(endereco));
                    let tag_linha = old(self).tag_em(idx, posicao as int);
                    assert(old(self).memoria@[idx]@[posicao as int].validade);
                    assert(old(self).bloco_em(idx, posicao as int) == old(self).bloco_do_nivel(
                        old(self).base_da_linha(idx, tag_linha),
                    ));
                    old(self).spec_cache_conf().lemma_base_do_bloco(endereco);
                    assert(old(self).base_da_linha(idx, tag_linha) == old(self).base_do_endereco(
                        endereco,
                    ));
                    assert(resultado@ == old(self).conteudo_servido(endereco));
                }
                resultado
            },
            Option::None => {
                proof {
                    assert(!old(self).presente(endereco));
                    assert(indice as int == old(self).conjunto_do(endereco));
                }
                let par = self.possui_espaco_vazio_no_conjunto(indice);
                let nova_linha = self.trata_falta_leitura(endereco);
                let offset: u32 = self.cache_conf.offset_endereco(endereco);
                proof {
                    self.cache_conf.lemma_geometria();
                    if !self.cache_conf.spec_enderecado_byte() {
                        lemma_limite_extracao(
                            self.cache_conf.spec_bsize() as nat,
                            self.cache_conf.spec_bytes_por_palavra() as nat,
                            offset as nat,
                        );
                    }
                    assert(self.cache_conf.spec_offset(endereco) == old(
                        self,
                    ).spec_cache_conf().spec_offset(endereco));
                }
                let resultado = extrai_dados(
                    &nova_linha.bloco,
                    offset as usize,
                    self.cache_conf.enderecado_byte(),
                    self.cache_conf.bytes_por_palavra(),
                );
                let ghost linha_nova = nova_linha;
                let ghost m_antes = self.memoria@;
                let ghost contagem_antes = validas_na_memoria(m_antes);
                proof {
                    assert(m_antes == old(self).memoria@);
                }
                let posicao: usize;
                if par.0 {
                    posicao = par.1;
                } else {
                    let sorteio: u32 = sorteia_u32(&mut self.random_source);
                    posicao = (sorteio % self.cache_conf.assoc()) as usize;
                    proof {
                        assert(old(self).valida_em(indice as int, posicao as int));
                    }
                }
                let cheia: bool = self.verifica_cache_encheu();
                proof {
                    assert(cheia == old(self).encheu());
                }
                self.grava_linha(indice as usize, posicao, nova_linha);
                proof {
                    let idx = indice as int;
                    let c_antes = m_antes[idx]@;
                    let c_depois_vec = self.memoria@[idx];
                    assert(self.memoria@ =~= m_antes.update(idx, c_depois_vec));
                    lemma_validas_memoria_update(m_antes, idx, c_depois_vec);
                    lemma_validas_conjunto_update(c_antes, posicao as int, linha_nova);
                    lemma_validas_memoria_limite(
                        m_antes,
                        old(self).spec_cache_conf().spec_assoc() as nat,
                    );
                }
                if par.0 {
                    proof {
                        let idx = indice as int;
                        let nsets = old(self).spec_cache_conf().spec_nsets() as int;
                        let assoc = old(self).spec_cache_conf().spec_assoc() as int;
                        let bsize = old(self).spec_cache_conf().spec_bsize() as int;
                        assert(!m_antes[idx]@[posicao as int].validade);
                        assert(validas_na_memoria(self.memoria@) == contagem_antes + 1);
                        if contagem_antes as int == nsets * assoc {
                            assert(m_antes[idx]@[posicao as int].validade);
                        }
                        assert(contagem_antes + 1 <= nsets * assoc);
                        assert(bsize * (contagem_antes + 1) <= nsets * assoc * bsize && bsize * (
                        contagem_antes + 1) == bsize * (contagem_antes as int) + bsize) by (
                        nonlinear_arith)
                            requires
                                contagem_antes + 1 <= nsets * assoc,
                                bsize >= 0,
                        ;
                        if old(self).encheu() {
                            assert(contagem_antes as int == nsets * assoc) by (nonlinear_arith)
                                requires
                                    bsize >= 1,
                                    bsize * (contagem_antes as int) == nsets * assoc * bsize,
                                    contagem_antes as int <= nsets * assoc,
                            ;
                            assert(false);
                        }
                    }
                    self.cache_conf.historico_mut().adicionar_miss(FonteMiss::Compulsorio);
                    let acrescimo: u32 = self.cache_conf.bsize();
                    self.bytes_utilizados = self.bytes_utilizados + acrescimo;
                } else {
                    proof {
                        assert(m_antes[indice as int]@[posicao as int].validade);
                        assert(validas_na_memoria(self.memoria@) == contagem_antes);
                    }
                    if cheia {
                        self.cache_conf.historico_mut().adicionar_miss(FonteMiss::Capacidade);
                    } else {
                        self.cache_conf.historico_mut().adicionar_miss(FonteMiss::Conflito);
                    }
                }
                proof {
                    let idx = indice as int;
                    let nsets = old(self).spec_cache_conf().spec_nsets() as int;
                    let assoc = old(self).spec_cache_conf().spec_assoc() as int;
                    let bsize = old(self).spec_cache_conf().spec_bsize() as int;

                    assert(self.cache_conf.mesma_geometria(&old(self).cache_conf));
                    assert(self.memoria@.len() == nsets);
                    assert forall|s: int| 0 <= s < nsets implies (#[trigger] self.memoria@[s])@.len()
                        == assoc by {
                        if s != idx {
                            assert(self.memoria@[s] == m_antes[s]);
                        }
                    }
                    assert(self.memoria@[idx]@[posicao as int] == linha_nova);
                    assert(linha_nova.tag == tag_procura);
                    assert forall|s: int, v: int| 0 <= s < nsets && 0 <= v < assoc implies (
                    #[trigger] self.memoria@[s]@[v]).bloco@.len() == bsize by {
                        if !(s == idx && v == posicao as int) {
                            assert(self.memoria@[s]@[v] == m_antes[s]@[v]);
                        }
                    }
                    assert forall|s: int, v1: int, v2: int|
                        0 <= s < nsets && 0 <= v1 < assoc && 0 <= v2 < assoc && v1 != v2 && (
                        #[trigger] self.memoria@[s]@[v1]).validade && (
                    #[trigger] self.memoria@[s]@[v2]).validade implies self.memoria@[s]@[v1].tag
                        != self.memoria@[s]@[v2].tag by {
                        if s == idx && v1 == posicao as int {
                            assert(self.memoria@[s]@[v2] == m_antes[s]@[v2]);
                            assert(old(self).valida_em(s, v2));
                            assert(old(self).tag_em(s, v2) != tag_procura);
                        } else if s == idx && v2 == posicao as int {
                            assert(self.memoria@[s]@[v1] == m_antes[s]@[v1]);
                            assert(old(self).valida_em(s, v1));
                            assert(old(self).tag_em(s, v1) != tag_procura);
                        } else {
                            assert(self.memoria@[s]@[v1] == m_antes[s]@[v1]);
                            assert(self.memoria@[s]@[v2] == m_antes[s]@[v2]);
                            assert(old(self).valida_em(s, v1));
                            assert(old(self).valida_em(s, v2));
                        }
                    }
                    assert forall|e: u32| #[trigger]
                        self.spec_cache_conf().spec_nivel_inferior().conteudo_leitura(e) == old(
                            self,
                        ).spec_cache_conf().spec_nivel_inferior().conteudo_leitura(e) by {}
                    old(self).spec_cache_conf().lemma_base_do_bloco(endereco);
                    assert(self.base_da_linha(idx, linha_nova.tag) == old(self).base_do_endereco(
                        endereco,
                    ));
                    lemma_concat_conteudo_igual(
                        self.spec_cache_conf().spec_nivel_inferior(),
                        old(self).spec_cache_conf().spec_nivel_inferior(),
                        old(self).base_do_endereco(endereco),
                        old(self).spec_cache_conf().spec_leituras_por_falta(),
                    );
                    assert forall|s: int, v: int|
                        0 <= s < self.memoria@.len() && 0 <= v < assoc && (
                    #[trigger] self.memoria@[s]@[v]).validade implies self.memoria@[s]@[v].bloco@
                        == self.bloco_do_nivel(self.base_da_linha(s, self.memoria@[s]@[v].tag)) by {
                        if s == idx && v == posicao as int {
                        } else {
                            assert(self.memoria@[s]@[v] == m_antes[s]@[v]);
                            assert(old(self).memoria@[s]@[v].validade);
                            lemma_concat_conteudo_igual(
                                self.spec_cache_conf().spec_nivel_inferior(),
                                old(self).spec_cache_conf().spec_nivel_inferior(),
                                self.base_da_linha(s, self.memoria@[s]@[v].tag),
                                old(self).spec_cache_conf().spec_leituras_por_falta(),
                            );
                        }
                    }
                    assert(self.wf());
                    assert(resultado@ == old(self).conteudo_servido(endereco));
                    if par.0 {
                        assert forall|w: int| 0 <= w < posicao as int implies #[trigger] old(
                            self,
                        ).valida_em(idx, w) by {}
                    }
                    assert(self.valida_em(idx, posicao as int));
                    assert(self.tag_em(idx, posicao as int) == linha_nova.tag);
                    assert(self.bloco_em(idx, posicao as int) == linha_nova.bloco@);
                    assert(self.spec_cache_conf().spec_indice(endereco) == old(
                        self,
                    ).spec_cache_conf().spec_indice(endereco));
                    assert(self.spec_cache_conf().spec_tag(endereco) == old(
                        self,
                    ).spec_cache_conf().spec_tag(endereco));
                    assert(self.tag_em(self.conjunto_do(endereco), posicao as int) as nat
                        == self.spec_cache_conf().spec_tag(endereco));
                    assert(self.valida_em(self.conjunto_do(endereco), posicao as int));
                    assert(self.presente(endereco));
                    assert forall|s: int, v: int|
                        0 <= s < nsets && 0 <= v < assoc && !(s == idx && v == posicao as int)
                        implies ((#[trigger] self.valida_em(s, v)) == old(self).valida_em(s, v)
                        && self.tag_em(s, v) == old(self).tag_em(s, v) && self.bloco_em(s, v)
                        == old(self).bloco_em(s, v)) by {
                        assert(self.memoria@[s]@[v] == m_antes[s]@[v]);
                    }
                    assert(self.mesmas_linhas_exceto(old(self), idx, posicao as int));
                    assert(resultado@ == old(self).extracao_de(
                        self.bloco_em(idx, posicao as int),
                        endereco,
                    ));
                }
                resultado
            },
        }
    }
}

/// Once the fullness watermark has reached the total capacity, every way of
/// every set holds a valid line: no set has an empty way left. Together with
/// `leitura`'s contract this says that no later miss is ever charged as
/// compulsory (that needs an empty way) or as conflict (that needs the
/// watermark below capacity, and the watermark never moves again): once the
/// cache has filled, every eviction is a capacity miss.
pub proof fn lemma_cache_cheia_sem_vaga<M: Memoria>(cache: &Random<M>, conjunto: int)
    requires
        cache.wf(),
        cache.encheu(),
        0 <= conjunto < cache.spec_cache_conf().spec_nsets() as int,
    ensures
        !cache.tem_vaga(conjunto),
        forall|v: int|
            0 <= v < cache.spec_cache_conf().spec_assoc() as int ==> #[trigger] cache.valida_em(
                conjunto,
                v,
            ),
{
    let conf = cache.spec_cache_conf();
    let nsets = conf.spec_nsets() as int;
    let assoc = conf.spec_assoc() as int;
    let bsize = conf.spec_bsize() as int;
    conf.lemma_geometria();
    let contagem = validas_na_memoria(cache.memoria@);
    lemma_validas_memoria_limite(cache.memoria@, conf.spec_assoc() as nat);
    assert(contagem as int == nsets * assoc) by (nonlinear_arith)
        requires
            bsize >= 1,
            bsize * (contagem as int) == nsets * assoc * bsize,
            contagem as int <= nsets * assoc,
    ;
    assert forall|v: int| 0 <= v < assoc implies #[trigger] cache.valida_em(conjunto, v) by {
        assert(cache.memoria@[conjunto]@[v].validade);
    }
}

impl<M: Memoria> Random<M> {
    /// The write path is accepted and intentionally does nothing: this
    /// engine models the read behaviour of a cache only, so a write leaves
    /// the lines, the counters, the watermark and the level below untouched.
    pub fn escrita(&mut self, valor: i8, endereco: u32)
        ensures
            *final(self) == *old(self),
    {
    }
}

impl<M: Memoria> Memoria for Random<M> {
    open spec fn tamanho_leitura(&self) -> nat {
        self.spec_cache_conf().spec_unidade_leitura()
    }

    open spec fn conteudo_leitura(&self, endereco: u32) -> Seq<i8> {
        if self.wf() {
            self.conteudo_servido(endereco)
        } else {
            Seq::new(self.tamanho_leitura(), |i: int| 0i8)
        }
    }

    open spec fn leituras_servidas(&self) -> nat {
        self.spec_historico().spec_total_acessos() as nat
    }

    open spec fn leituras_prontas(&self) -> nat {
        if self.wf() {
            let restantes = (u32::MAX - self.spec_historico().spec_total_acessos()) as nat;
            let abaixo = self.spec_cache_conf().spec_nivel_inferior().leituras_prontas()
                / self.spec_cache_conf().spec_leituras_por_falta();
            if restantes <= abaixo {
                restantes
            } else {
                abaixo
            }
        } else {
            0
        }
    }

    proof fn conteudo_tem_tamanho(&self, endereco: u32) {
        if self.wf() {
            let conf = self.spec_cache_conf();
            self.lemma_boa_formacao();
            conf.lemma_geometria();
            lemma_concat_conteudo_comprimento(
                conf.spec_nivel_inferior(),
                self.base_do_endereco(endereco),
                conf.spec_leituras_por_falta(),
            );
            assert(conf.spec_leituras_por_falta() * conf.spec_unidade_leitura()
                == conf.spec_unidade_leitura() * conf.spec_leituras_por_falta())
                by (nonlinear_arith);
            if !conf.spec_enderecado_byte() {
                lemma_pow2_pos(conf.spec_offset_size() as nat);
                lemma_mod_division_less_than_divisor(
                    endereco as int,
                    pow2(conf.spec_offset_size() as nat) as int,
                );
                lemma_limite_extracao(
                    conf.spec_bsize() as nat,
                    conf.spec_bytes_por_palavra() as nat,
                    conf.spec_offset(endereco),
                );
            }
        }
    }

    fn read(&mut self, endereco: u32) -> (r: Vec<i8>) {
        proof {
            let falta = old(self).spec_cache_conf().spec_leituras_por_falta();
            let abaixo_total = old(
                self,
            ).spec_cache_conf().spec_nivel_inferior().leituras_prontas();
            old(self).spec_cache_conf().lemma_geometria();
            if abaixo_total < falta {
                vstd::arithmetic::div_mod::lemma_basic_div(abaixo_total as int, falta as int);
            }
        }
        let r = self.leitura(endereco);
        proof {
            let falta = old(self).spec_cache_conf().spec_leituras_por_falta();
            let antes = old(self).spec_cache_conf().spec_nivel_inferior().leituras_prontas();
            let depois = self.spec_cache_conf().spec_nivel_inferior().leituras_prontas();
            old(self).spec_cache_conf().lemma_geometria();
            vstd::arithmetic::div_mod::lemma_hoist_over_denominator(depois as int, 1, falta);
            vstd::arithmetic::div_mod::lemma_div_is_ordered(
                antes as int,
                depois as int + falta as int,
                falta as int,
            );
            assert(depois as int / falta as int + 1 >= antes as int / falta as int);
            assert forall|e: u32| #[trigger]
                self.conteudo_leitura(e) == old(self).conteudo_leitura(e) by {
                lemma_concat_conteudo_igual(
                    self.spec_cache_conf().spec_nivel_inferior(),
                    old(self).spec_cache_conf().spec_nivel_inferior(),
                    old(self).base_do_endereco(e),
                    old(self).spec_cache_conf().spec_leituras_por_falta(),
                );
                assert(self.base_do_endereco(e) == old(self).base_do_endereco(e));
            }
        }
        r
    }

    fn write(&mut self, valor: i8, endereco: u32) {
        self.escrita(valor, endereco);
    }
}

} // verus!
