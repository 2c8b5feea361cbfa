use vstd::prelude::*;

verus! {

/// The ordered candidate values of one variable.
pub struct DVar<V> {
    pub options: Vec<V>,
}

impl<V: Copy> View for DVar<V> {
    type V = Seq<V>;

    open spec fn view(&self) -> Seq<V> {
        self.options@
    }
}

impl<V: Copy> DVar<V> {
    /// A domain holding `options`, in their order.
    pub fn new(options: Vec<V>) -> (r: DVar<V>)
        ensures
            r@ == options@,
    {
        DVar { options }
    }

    /// The number of options.
    pub fn len(&self) -> (r: usize)
        ensures
            r == self@.len(),
    {
        self.options.len()
    }

    /// Keeps only the option at index `which`.
    pub fn restrict(&mut self, which: usize)
        requires
            which < old(self)@.len(),
        ensures
            final(self)@ == seq![old(self)@[which as int]],
    {
        let opt = self.options[which];
        self.options.clear();
        self.options.push(opt);
    }

    /// Replaces the options by the single value `what`.
    pub fn set(&mut self, what: &V)
        ensures
            final(self)@ == seq![*what],
    {
        self.options.clear();
        self.options.push(*what);
    }

    /// An independent copy with the same options.
    pub fn copy(&self) -> (r: DVar<V>)
        ensures
            r@ == self@,
    {
        let mut options: Vec<V> = Vec::new();
        let mut i: usize = 0;
        while i < self.options.len()
            invariant
                i <= self.options@.len(),
                options@ == self.options@.take(i as int),
            decreases self.options@.len() - i,
        {
            options.push(self.options[i]);
            i = i + 1;
            assert(options@ =~= self.options@.take(i as int));
        }
        assert(options@ =~= self.options@);
        DVar { options }
    }
}

} // verus!
