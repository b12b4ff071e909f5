//! Interface of a memory level, and the two simple levels that come with the
//! library: the stub `RAM` at the bottom, and a counting level for
//! observing how many reads a cache issues downward.

use vstd::prelude::*;

verus! {

/// A level of the memory hierarchy, as seen from the cache above it.
///
/// On a miss the cache issues one `read` per fill unit; `tamanho_leitura`
/// says how many bytes one read hands back (one byte for a byte-addressed
/// level, one word for a word-addressed one), and must not change over the
/// level's lifetime.
///
/// `conteudo_leitura` names the bytes a read of each address hands back; a
/// read returns exactly that sequence, and serving reads never changes it,
/// so a block fetched once stays a faithful copy of the level below.
///
/// `leituras_servidas` counts the reads the level has served: every `read`
/// advances it by exactly one, which is what pins how many reads a miss
/// issues downward.
///
/// `leituras_prontas` is the number of further reads the level is known to
/// be able to serve; each read may consume at most one unit of it. A level
/// with unbounded service reports a fixed large value. A cache implementing
/// this trait reports a bounded value, since its access counters are finite.
pub trait Memoria {
    /// Bytes handed back by one `read`.
    spec fn tamanho_leitura(&self) -> nat;

    /// The bytes a read of `endereco` hands back.
    spec fn conteudo_leitura(&self, endereco: u32) -> Seq<i8>;

    /// Reads served so far.
    spec fn leituras_servidas(&self) -> nat;

    /// Reads this level is still known to be able to serve.
    spec fn leituras_prontas(&self) -> nat;

    /// Every read hands back exactly one fill unit.
    proof fn conteudo_tem_tamanho(&self, endereco: u32)
        ensures
            self.conteudo_leitura(endereco).len() == self.tamanho_leitura(),
    ;

    /// Read the fill unit that starts at `endereco`.
    fn read(&mut self, endereco: u32) -> (r: Vec<i8>)
        requires
            old(self).leituras_prontas() > 0,
        ensures
            r@ == old(self).conteudo_leitura(endereco),
            final(self).leituras_servidas() == old(self).leituras_servidas() + 1,
            forall|e: u32| #[trigger]
                final(self).conteudo_leitura(e) == old(self).conteudo_leitura(e),
            final(self).tamanho_leitura() == old(self).tamanho_leitura(),
            final(self).leituras_prontas() + 1 >= old(self).leituras_prontas(),
    ;

    /// Write one byte at `endereco`.
    fn write(&mut self, valor: i8, endereco: u32)
        ensures
            forall|e: u32| #[trigger]
                final(self).conteudo_leitura(e) == old(self).conteudo_leitura(e),
            final(self).leituras_servidas() == old(self).leituras_servidas(),
            final(self).tamanho_leitura() == old(self).tamanho_leitura(),
            final(self).leituras_prontas() == old(self).leituras_prontas(),
    ;
}

/// The lowest level of the hierarchy: a stub main memory that serves any
/// address with the same single byte and ignores writes. The read counter
/// is ghost: at run time the level stays stateless.
pub struct RAM {
    leituras: Ghost<nat>,
}

impl RAM {
    pub fn new() -> (r: RAM)
        ensures
            r.leituras_servidas() == 0,
    {
        RAM { leituras: Ghost(0nat) }
    }
}

impl Memoria for RAM {
    open spec fn tamanho_leitura(&self) -> nat {
        1
    }

    open spec fn conteudo_leitura(&self, endereco: u32) -> Seq<i8> {
        seq![4i8]
    }

    closed spec fn leituras_servidas(&self) -> nat {
        self.leituras@
    }

    open spec fn leituras_prontas(&self) -> nat {
        u32::MAX as nat
    }

    proof fn conteudo_tem_tamanho(&self, endereco: u32) {
    }

    fn read(&mut self, endereco: u32) -> (r: Vec<i8>) {
        self.leituras = Ghost(self.leituras@ + 1);
        let r = vec![4];
        proof {
            assert(r@ =~= seq![4i8]);
        }
        r
    }

    fn write(&mut self, valor: i8, endereco: u32) {
    }
}

/// A memory level that serves any address with a fixed byte repeated over a
/// configurable fill unit, and counts the reads it serves. Useful as the
/// backing store of a word-addressed cache, and for observing how many
/// reads a miss issues downward.
pub struct MemoriaContadora {
    valor: i8,
    bytes_por_leitura: u32,
    leituras: u64,
}

impl MemoriaContadora {
    pub closed spec fn spec_valor(&self) -> i8 {
        self.valor
    }

    pub closed spec fn spec_bytes_por_leitura(&self) -> u32 {
        self.bytes_por_leitura
    }

    pub closed spec fn spec_leituras(&self) -> u64 {
        self.leituras
    }

    pub fn new(valor: i8, bytes_por_leitura: u32) -> (r: Self)
        ensures
            r.spec_valor() == valor,
            r.spec_bytes_por_leitura() == bytes_por_leitura,
            r.spec_leituras() == 0,
    {
        Self { valor, bytes_por_leitura, leituras: 0 }
    }

    /// How many reads this level has served so far.
    pub fn leituras(&self) -> (r: u64)
        ensures
            r == self.spec_leituras(),
            r == self.leituras_servidas(),
    {
        self.leituras
    }
}

impl Memoria for MemoriaContadora {
    open spec fn tamanho_leitura(&self) -> nat {
        self.spec_bytes_por_leitura() as nat
    }

    open spec fn conteudo_leitura(&self, endereco: u32) -> Seq<i8> {
        Seq::new(self.spec_bytes_por_leitura() as nat, |i: int| self.spec_valor())
    }

    open spec fn leituras_servidas(&self) -> nat {
        self.spec_leituras() as nat
    }

    open spec fn leituras_prontas(&self) -> nat {
        (u64::MAX - self.spec_leituras()) as nat
    }

    proof fn conteudo_tem_tamanho(&self, endereco: u32) {
    }

    fn read(&mut self, endereco: u32) -> (r: Vec<i8>) {
        self.leituras = self.leituras + 1;
        let r = vec![self.valor; self.bytes_por_leitura as usize];
        proof {
            assert(r@ =~= Seq::new(self.spec_bytes_por_leitura() as nat, |i: int| self.spec_valor()));
        }
        r
    }

    fn write(&mut self, valor: i8, endereco: u32) {
    }
}

} // verus!
