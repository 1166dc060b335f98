pub mod file_or_folder;
