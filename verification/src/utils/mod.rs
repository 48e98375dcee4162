pub mod kifu_strings;
