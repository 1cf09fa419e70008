//! The boundary to the text side: what the store asks of a tokenizer, and
//! the shape of the table of embeddings.

use vstd::prelude::*;

verus! {

/// A tokenizer turns a text into the numbers of its tokens. The store makes
/// no assumption about which numbers come out.
pub trait TokenizerInterface {
    fn encode(&self, text: &str) -> Vec<usize>;
}

/// Why a table of embeddings cannot be used or asked.
pub enum EmbeddingError {
    /// The table has this many dimensions, not two.
    NotTwoDimensional(usize),
    /// The index lies outside the table, which has this many columns.
    InvalidIndex(i64, i64),
}

/// The shape of a table of embeddings: its number of rows and of columns.
pub struct Embedding {
    input_dim: i64,
    output_dim: i64,
}

impl Embedding {
    /// The number of rows of the table.
    pub closed spec fn rows(&self) -> i64 {
        self.input_dim
    }

    /// The number of columns of the table.
    pub closed spec fn columns(&self) -> i64 {
        self.output_dim
    }

    /// The table of the given shape, which must have two dimensions.
    pub fn load(shape: &Vec<i64>) -> (loaded: Result<Embedding, EmbeddingError>)
        ensures
            match loaded {
                Ok(table) => shape.len() == 2 && table.rows() == shape[0] && table.columns()
                    == shape[1],
                Err(EmbeddingError::NotTwoDimensional(n)) => shape.len() != 2 && n == shape.len(),
                Err(EmbeddingError::InvalidIndex(_, _)) => false,
            },
    {
        if shape.len() != 2 {
            Err(EmbeddingError::NotTwoDimensional(shape.len()))
        } else {
            Ok(Embedding { input_dim: shape[0], output_dim: shape[1] })
        }
    }

    /// The column to read for the token `input_index`: the index itself where
    /// it names a column of the table.
    pub fn forward(&self, input_index: i64) -> (column: Result<i64, EmbeddingError>)
        ensures
            match column {
                Ok(index) => 0 <= input_index < self.columns() && index == input_index,
                Err(EmbeddingError::InvalidIndex(index, bound)) => !(0 <= input_index
                    < self.columns()) && index == input_index && bound == self.rows(),
                Err(EmbeddingError::NotTwoDimensional(_)) => false,
            },
    {
        if input_index < 0 || input_index >= self.output_dim {
            Err(EmbeddingError::InvalidIndex(input_index, self.input_dim))
        } else {
            Ok(input_index)
        }
    }

    /// The number of rows of the table.
    pub fn input_dim(&self) -> (rows: i64)
        ensures
            rows == self.rows(),
    {
        self.input_dim
    }

    /// The number of columns of the table.
    pub fn output_dim(&self) -> (columns: i64)
        ensures
            columns == self.columns(),
    {
        self.output_dim
    }
}

} // verus!
